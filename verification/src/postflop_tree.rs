//! The public tree of a hand from some street on, with every card to come.
use vstd::prelude::*;
use crate::arith::{capped, floored};
use crate::cards::{deck_without, Board, Card};
use crate::deals::deck_without_facts;
use crate::postflop::{
    actions_spec, is_aggressive, is_aggressive_action, suits_request, ActionCandidate,
    ActionSetConfig, ActionSetRequest, PlayerAction, RequestView,
};
use crate::postflop_shape::{hang_together, trees_hang_together};
use crate::runouts::{outside_is_without, remaining_cards};
use crate::scalar::Scalar;
use crate::tree::Street;

verus! {

/// A player of the hand.
#[derive(Clone, Copy, Debug, PartialEq, Eq, Structural)]
pub enum Player {
    Hero,
    Villain,
}

impl Player {
    /// The other player.
    pub open spec fn next_spec(self) -> Self {
        match self {
            Player::Hero => Player::Villain,
            Player::Villain => Player::Hero,
        }
    }

    /// The other player.
    pub fn next(self) -> (r: Self)
        ensures
            r == self.next_spec(),
    {
        match self {
            Player::Hero => Player::Villain,
            Player::Villain => Player::Hero,
        }
    }
}

/// What all can see of a hand at a decision.
#[derive(Clone, Copy, Debug)]
pub struct PublicState {
    pub street: Street,
    pub board: Board,
    pub pot: u32,
    pub hero_invested: u32,
    pub villain_invested: u32,
    pub effective_stack: u32,
    pub to_call: u32,
    pub min_aggressive_amount: u32,
    pub acting_player: Player,
    pub raises_this_street: u8,
    pub checks_this_street: u8,
}

impl PublicState {
    /// What a player has put in.
    pub open spec fn invested(self, player: Player) -> u32 {
        match player {
            Player::Hero => self.hero_invested,
            Player::Villain => self.villain_invested,
        }
    }

    /// Whether the chips of a state fit together: there is a pot, the actor is behind by what is to be
    /// called and has it, and the board has room for the cards to come.
    pub open spec fn fits(self) -> bool {
        &&& self.pot > 0
        &&& self.to_call <= self.effective_stack
        &&& self.invested(self.acting_player) + self.to_call == self.invested(
            self.acting_player.next_spec(),
        )
        &&& self.board.wf()
        &&& self.board@.len() + 2 - self.street.place() <= 5
        &&& self.checks_this_street < 255
    }

    /// The state with more put in by a player.
    pub open spec fn with_investment(self, player: Player, amount: int) -> PublicState {
        match player {
            Player::Hero => PublicState {
                hero_invested: capped(self.hero_invested + amount) as u32,
                ..self
            },
            Player::Villain => PublicState {
                villain_invested: capped(self.villain_invested + amount) as u32,
                ..self
            },
        }
    }
}

/// How a tree is built.
#[derive(Clone, Debug)]
pub struct SubgameTreeConfig<S> {
    pub action_set: ActionSetConfig<S>,
    pub max_raises_per_street: u8,
}

impl<S: Scalar> Default for SubgameTreeConfig<S> {
    fn default() -> (r: Self)
        ensures
            call_ensures(ActionSetConfig::<S>::default, (), r.action_set),
            r.max_raises_per_street == 2,
    {
        SubgameTreeConfig { action_set: ActionSetConfig::default(), max_raises_per_street: 2 }
    }
}

/// How a hand ends.
#[derive(Clone, Copy, Debug, PartialEq, Eq, Structural)]
pub enum TerminalKind {
    Fold,
    Showdown,
}

/// What a node is.
#[derive(Clone, Debug)]
pub enum PublicNodeKind {
    Decision { state: PublicState, actions: Vec<ActionCandidate> },
    Chance { street: Street, board: Board, cards: Vec<Card> },
    Terminal {
        kind: TerminalKind,
        board: Board,
        pot: u32,
        hero_invested: u32,
        villain_invested: u32,
    },
}

/// A node of a public tree.
#[derive(Clone, Debug)]
pub struct PublicNode {
    pub parent: Option<usize>,
    pub children: Vec<usize>,
    pub kind: PublicNodeKind,
}

/// What a node is.
pub ghost enum KindView {
    Decision { state: PublicState, actions: Seq<ActionCandidate> },
    Chance { street: Street, board: Board, cards: Seq<Card> },
    Terminal {
        kind: TerminalKind,
        board: Board,
        pot: u32,
        hero_invested: u32,
        villain_invested: u32,
    },
}

/// A node of a public tree.
pub ghost struct NodeView {
    pub parent: Option<usize>,
    pub children: Seq<usize>,
    pub kind: KindView,
}

impl View for PublicNodeKind {
    type V = KindView;

    open spec fn view(&self) -> KindView {
        match *self {
            PublicNodeKind::Decision { state, actions } => KindView::Decision {
                state,
                actions: actions@,
            },
            PublicNodeKind::Chance { street, board, cards } => KindView::Chance {
                street,
                board,
                cards: cards@,
            },
            PublicNodeKind::Terminal { kind, board, pot, hero_invested, villain_invested } => KindView::Terminal {
                kind,
                board,
                pot,
                hero_invested,
                villain_invested,
            },
        }
    }
}

impl View for PublicNode {
    type V = NodeView;

    open spec fn view(&self) -> NodeView {
        NodeView { parent: self.parent, children: self.children@, kind: self.kind@ }
    }
}

/// What nodes are.
pub open spec fn node_views(nodes: Seq<PublicNode>) -> Seq<NodeView> {
    nodes.map(|i: int, node: PublicNode| node@)
}

/// The street after a street; the river stays.
pub open spec fn street_after(street: Street) -> Street {
    match street {
        Street::Flop => Street::Turn,
        Street::Turn => Street::River,
        Street::River => Street::River,
    }
}

/// The street after a street; the river stays.
pub fn next_street(street: Street) -> (r: Street)
    ensures
        r == street_after(street),
{
    match street {
        Street::Flop => Street::Turn,
        Street::Turn => Street::River,
        Street::River => Street::River,
    }
}

/// Whether an action ends the betting on a street: a call, or a second check.
pub open spec fn advances(state: PublicState, action: PlayerAction) -> bool {
    match action {
        PlayerAction::Call { amount } => true,
        PlayerAction::Check => state.to_call == 0 && state.checks_this_street + 1 >= 2,
        _ => false,
    }
}

/// Whether an action ends the betting on a street.
pub fn should_advance_street(state: &PublicState, action: PlayerAction) -> (r: bool)
    ensures
        r == advances(*state, action),
{
    match action {
        PlayerAction::Call { .. } => true,
        PlayerAction::Check => state.to_call == 0 && state.checks_this_street >= 1,
        _ => false,
    }
}

/// The state after a check or a call.
pub open spec fn passed(state: PublicState, action: PlayerAction) -> PublicState {
    let amount = match action {
        PlayerAction::Call { amount } => amount as int,
        _ => 0,
    };
    PublicState {
        pot: capped(state.pot + amount) as u32,
        effective_stack: floored(state.effective_stack - amount) as u32,
        to_call: 0,
        acting_player: state.acting_player.next_spec(),
        checks_this_street: match action {
            PlayerAction::Check => if state.checks_this_street == 255 {
                255
            } else {
                (state.checks_this_street + 1) as u8
            },
            PlayerAction::Call { amount } => 0,
            _ => state.checks_this_street,
        },
        ..state.with_investment(state.acting_player, amount)
    }
}

/// Puts chips in for a player.
fn add_investment(state: &mut PublicState, player: Player, amount: u32)
    ensures
        *final(state) == old(state).with_investment(player, amount as int),
{
    match player {
        Player::Hero => {
            state.hero_invested = state.hero_invested.saturating_add(amount);
        },
        Player::Villain => {
            state.villain_invested = state.villain_invested.saturating_add(amount);
        },
    }
}

/// The state after a check or a call.
pub fn state_after_passive_action(state: &PublicState, action: PlayerAction) -> (r: PublicState)
    ensures
        r == passed(*state, action),
{
    let amount: u32 = match action {
        PlayerAction::Call { amount } => amount,
        _ => 0,
    };
    let mut next: PublicState = *state;
    next.pot = next.pot.saturating_add(amount);
    add_investment(&mut next, state.acting_player, amount);
    next.effective_stack = next.effective_stack.saturating_sub(amount);
    next.to_call = 0;
    next.acting_player = state.acting_player.next();
    next.checks_this_street =
    match action {
        PlayerAction::Check => next.checks_this_street.saturating_add(1),
        PlayerAction::Call { .. } => 0,
        _ => next.checks_this_street,
    };
    next
}

/// The state after a bet or a raise.
pub open spec fn pressed(state: PublicState, amount: u32) -> PublicState {
    let put_in = if amount <= state.effective_stack {
        amount
    } else {
        state.effective_stack
    };
    let next = state.with_investment(state.acting_player, put_in as int);
    let least = capped(put_in * 2);
    PublicState {
        pot: capped(state.pot + put_in) as u32,
        to_call: floored(
            next.invested(state.acting_player) - next.invested(state.acting_player.next_spec()),
        ) as u32,
        min_aggressive_amount: (if least >= 1 {
            least
        } else {
            1
        }) as u32,
        acting_player: state.acting_player.next_spec(),
        raises_this_street: if state.raises_this_street == 255 {
            255
        } else {
            (state.raises_this_street + 1) as u8
        },
        checks_this_street: 0,
        ..next
    }
}

/// The state after a bet or a raise.
pub fn state_after_aggressive_action(state: &PublicState, amount: u32) -> (r: PublicState)
    ensures
        r == pressed(*state, amount),
{
    let contribution: u32 = if amount <= state.effective_stack {
        amount
    } else {
        state.effective_stack
    };
    let mut next: PublicState = *state;
    next.pot = next.pot.saturating_add(contribution);
    add_investment(&mut next, state.acting_player, contribution);
    next.to_call =
    match state.acting_player {
        Player::Hero => next.hero_invested.saturating_sub(next.villain_invested),
        Player::Villain => next.villain_invested.saturating_sub(next.hero_invested),
    };
    let least: u32 = if contribution > 0x7fff_ffff {
        u32::MAX
    } else {
        contribution * 2
    };
    next.min_aggressive_amount = if least >= 1 {
        least
    } else {
        1
    };
    next.acting_player = state.acting_player.next();
    next.raises_this_street = next.raises_this_street.saturating_add(1);
    next.checks_this_street = 0;
    next
}

/// Where a hand goes on with a card.
pub open spec fn dealt(state: PublicState, board: Board) -> PublicState {
    PublicState {
        street: street_after(state.street),
        board,
        to_call: 0,
        min_aggressive_amount: if state.pot >= 1 {
            state.pot
        } else {
            1
        },
        raises_this_street: 0,
        checks_this_street: 0,
        ..state
    }
}

/// A bet that can be made leaves what can be called by the other player, who is behind by it.
pub proof fn bets_can_be_called(state: PublicState, amount: u32)
    requires
        state.fits(),
        state.to_call < amount <= state.effective_stack,
    ensures
        pressed(state, amount).fits(),
        pressed(state, amount).to_call <= amount - state.to_call,
{
}

/// After a check, or a call of what is to be called, both players have put in as much.
pub proof fn passive_actions_settle(state: PublicState, action: PlayerAction)
    requires
        state.fits(),
        action == PlayerAction::Check && state.to_call == 0 && state.checks_this_street == 0 || action == (
        PlayerAction::Call { amount: state.to_call }),
    ensures
        passed(state, action).fits(),
        passed(state, action).hero_invested == passed(state, action).villain_invested,
{
}

/// The first `n` actions without bets and raises.
pub open spec fn passive_only(actions: Seq<ActionCandidate>, n: nat) -> Seq<ActionCandidate>
    decreases n,
{
    if n == 0 {
        Seq::empty()
    } else {
        let front = passive_only(actions, (n - 1) as nat);
        if is_aggressive(actions[n - 1].action) {
            front
        } else {
            front.push(actions[n - 1])
        }
    }
}

/// The request for the actions of a state, with nothing seen.
pub open spec fn request_of(state: PublicState) -> RequestView {
    RequestView {
        street: state.street,
        pot: state.pot,
        stack: state.effective_stack,
        to_call: state.to_call,
        min_aggressive_amount: state.min_aggressive_amount,
        observed: Seq::empty(),
    }
}

/// The actions of a state: without bets and raises once there were as many as may be.
pub open spec fn state_actions<S: Scalar>(config: SubgameTreeConfig<S>, state: PublicState) -> Seq<
    ActionCandidate,
> {
    let all = actions_spec(config.action_set, request_of(state));
    if state.raises_this_street >= config.max_raises_per_street {
        passive_only(all, all.len())
    } else {
        all
    }
}

/// Whether a hand is over without an action: nothing is left to bet, or the river was checked.
pub open spec fn is_over(state: PublicState) -> bool {
    state.effective_stack == 0 || (state.street == Street::River && state.to_call == 0
        && state.checks_this_street >= 2)
}

/// The end of a hand.
pub open spec fn end_of(kind: TerminalKind, state: PublicState) -> KindView {
    KindView::Terminal {
        kind,
        board: state.board,
        pot: state.pot,
        hero_invested: state.hero_invested,
        villain_invested: state.villain_invested,
    }
}

/// Nodes with one more, which follows its parent.
pub open spec fn node_added(nodes: Seq<NodeView>, parent: Option<usize>, kind: KindView) -> Seq<NodeView> {
    let added = nodes.push(NodeView { parent, children: Seq::empty(), kind });
    match parent {
        Some(p) => added.update(
            p as int,
            NodeView { children: added[p as int].children.push(nodes.len() as usize), ..added[p as int] },
        ),
        None => added,
    }
}

/// How many raises may still come.
pub open spec fn raises_left<S>(config: SubgameTreeConfig<S>, state: PublicState) -> int {
    floored(config.max_raises_per_street - state.raises_this_street)
}

/// How many checks may still come.
pub open spec fn checks_left(state: PublicState) -> int {
    floored(2 - state.checks_this_street)
}

/// Nodes with all that follows from a state.
pub open spec fn state_expanded<S: Scalar>(
    config: SubgameTreeConfig<S>,
    nodes: Seq<NodeView>,
    parent: Option<usize>,
    state: PublicState,
) -> Seq<NodeView>
    decreases
        2 * (2 - state.street.place()) + 1,
        raises_left(config, state),
        checks_left(state),
        1int,
        0int,
{
    if is_over(state) {
        node_added(nodes, parent, end_of(TerminalKind::Showdown, state))
    } else {
        let actions = state_actions(config, state);
        actions_expanded(
            config,
            node_added(nodes, parent, KindView::Decision { state, actions }),
            nodes.len() as usize,
            state,
            actions,
            actions.len(),
        )
    }
}

/// Nodes with all that follows from the first `n` actions of a state.
pub open spec fn actions_expanded<S: Scalar>(
    config: SubgameTreeConfig<S>,
    nodes: Seq<NodeView>,
    parent: usize,
    state: PublicState,
    actions: Seq<ActionCandidate>,
    n: nat,
) -> Seq<NodeView>
    decreases
        2 * (2 - state.street.place()) + 1,
        raises_left(config, state),
        checks_left(state),
        0int,
        n,
{
    if n == 0 {
        nodes
    } else {
        let front = actions_expanded(config, nodes, parent, state, actions, (n - 1) as nat);
        let action = actions[n - 1].action;
        match action {
            PlayerAction::Fold => node_added(
                front,
                Some(parent),
                end_of(TerminalKind::Fold, state),
            ),
            PlayerAction::Call { amount } => cards_expanded_after(
                config,
                front,
                parent,
                passed(state, action),
            ),
            PlayerAction::Check => if advances(state, action) {
                cards_expanded_after(config, front, parent, passed(state, action))
            } else if state.checks_this_street == 0 {
                state_expanded(config, front, Some(parent), passed(state, action))
            } else {
                front
            },
            PlayerAction::Bet { amount } => pressed_expanded(config, front, parent, state, amount),
            PlayerAction::Raise { amount } => pressed_expanded(config, front, parent, state, amount),
            PlayerAction::AllIn { amount } => pressed_expanded(config, front, parent, state, amount),
        }
    }
}

/// Nodes with all that follows from a bet or a raise.
pub open spec fn pressed_expanded<S: Scalar>(
    config: SubgameTreeConfig<S>,
    nodes: Seq<NodeView>,
    parent: usize,
    state: PublicState,
    amount: u32,
) -> Seq<NodeView>
    decreases
        2 * (2 - state.street.place()) + 1,
        raises_left(config, state),
        checks_left(state),
        0int,
        0int,
{
    if state.raises_this_street < config.max_raises_per_street {
        state_expanded(config, nodes, Some(parent), pressed(state, amount))
    } else {
        nodes
    }
}

/// Nodes with all that follows when the betting on a street is over.
pub open spec fn cards_expanded_after<S: Scalar>(
    config: SubgameTreeConfig<S>,
    nodes: Seq<NodeView>,
    parent: usize,
    state: PublicState,
) -> Seq<NodeView>
    decreases 2 * (2 - state.street.place()), 0int, 0int, 1int, 0int,
{
    if state.street == Street::River {
        node_added(nodes, Some(parent), end_of(TerminalKind::Showdown, state))
    } else {
        let cards = deck_without(state.board@);
        cards_expanded(
            config,
            node_added(
                nodes,
                Some(parent),
                KindView::Chance { street: street_after(state.street), board: state.board, cards },
            ),
            nodes.len() as usize,
            state,
            cards,
            cards.len(),
        )
    }
}

/// Nodes with all that follows from the first `n` cards to come.
pub open spec fn cards_expanded<S: Scalar>(
    config: SubgameTreeConfig<S>,
    nodes: Seq<NodeView>,
    chance: usize,
    state: PublicState,
    cards: Seq<Card>,
    n: nat,
) -> Seq<NodeView>
    decreases 2 * (2 - state.street.place()), 0int, 0int, 0int, n,
{
    if n == 0 {
        nodes
    } else {
        let front = cards_expanded(config, nodes, chance, state, cards, (n - 1) as nat);
        if state.street == Street::River {
            front
        } else {
            state_expanded(
                config,
                front,
                Some(chance),
                dealt(state, state.board.with_card_spec(cards[n - 1])),
            )
        }
    }
}

/// Whether a hand can be played out from a state: wherever an action is due there is a pot and what is to be
/// called can be paid, checks can be counted, and the board has room for the cards to come.
pub open spec fn plays_out<S: Scalar>(config: SubgameTreeConfig<S>, state: PublicState) -> bool
    decreases
        2 * (2 - state.street.place()) + 1,
        raises_left(config, state),
        checks_left(state),
        1int,
        0int,
{
    is_over(state) || {
        let actions = state_actions(config, state);
        &&& state.pot > 0
        &&& state.to_call <= state.effective_stack
        &&& actions_play_out(config, state, actions, actions.len())
    }
}

/// Whether a hand can be played out from the first `n` actions of a state.
pub open spec fn actions_play_out<S: Scalar>(
    config: SubgameTreeConfig<S>,
    state: PublicState,
    actions: Seq<ActionCandidate>,
    n: nat,
) -> bool
    decreases
        2 * (2 - state.street.place()) + 1,
        raises_left(config, state),
        checks_left(state),
        0int,
        n + 1,
{
    n == 0 || {
        &&& actions_play_out(config, state, actions, (n - 1) as nat)
        &&& action_plays_out(config, state, actions[n - 1].action)
    }
}

/// Whether a hand can be played out from an action on.
pub open spec fn action_plays_out<S: Scalar>(
    config: SubgameTreeConfig<S>,
    state: PublicState,
    action: PlayerAction,
) -> bool
    decreases
        2 * (2 - state.street.place()) + 1,
        raises_left(config, state),
        checks_left(state),
        0int,
        0int,
{
    match action {
        PlayerAction::Fold => true,
        PlayerAction::Call { amount } => cards_play_out(config, passed(state, action)),
        PlayerAction::Check => state.checks_this_street < 255 && if advances(state, action) {
            cards_play_out(config, passed(state, action))
        } else {
            state.checks_this_street == 0 ==> plays_out(config, passed(state, action))
        },
        PlayerAction::Bet { amount } => state.raises_this_street < config.max_raises_per_street
            ==> plays_out(config, pressed(state, amount)),
        PlayerAction::Raise { amount } => state.raises_this_street < config.max_raises_per_street
            ==> plays_out(config, pressed(state, amount)),
        PlayerAction::AllIn { amount } => state.raises_this_street < config.max_raises_per_street
            ==> plays_out(config, pressed(state, amount)),
    }
}

/// Whether a hand can be played out when the betting on a street is over.
pub open spec fn cards_play_out<S: Scalar>(config: SubgameTreeConfig<S>, state: PublicState) -> bool
    decreases 2 * (2 - state.street.place()), 0int, 0int, 1int, 0int,
{
    state.street == Street::River || {
        let cards = deck_without(state.board@);
        &&& state.board@.len() < 5
        &&& each_card_plays_out(config, state, cards, cards.len())
    }
}

/// Whether a hand can be played out from the first `n` cards to come.
pub open spec fn each_card_plays_out<S: Scalar>(
    config: SubgameTreeConfig<S>,
    state: PublicState,
    cards: Seq<Card>,
    n: nat,
) -> bool
    decreases 2 * (2 - state.street.place()), 0int, 0int, 0int, n,
{
    n == 0 || state.street == Street::River || {
        &&& each_card_plays_out(config, state, cards, (n - 1) as nat)
        &&& plays_out(config, dealt(state, state.board.with_card_spec(cards[n - 1])))
    }
}

proof fn lemma_action_plays<S: Scalar>(
    config: SubgameTreeConfig<S>,
    state: PublicState,
    actions: Seq<ActionCandidate>,
    n: nat,
    k: int,
)
    requires
        0 <= k < n,
        actions_play_out(config, state, actions, n),
    ensures
        action_plays_out(config, state, actions[k].action),
    decreases n,
{
    if k < n - 1 {
        lemma_action_plays(config, state, actions, (n - 1) as nat, k);
    }
}

proof fn lemma_card_plays<S: Scalar>(
    config: SubgameTreeConfig<S>,
    state: PublicState,
    cards: Seq<Card>,
    n: nat,
    k: int,
)
    requires
        0 <= k < n,
        state.street != Street::River,
        each_card_plays_out(config, state, cards, n),
    ensures
        plays_out(config, dealt(state, state.board.with_card_spec(cards[k]))),
    decreases n,
{
    if k < n - 1 {
        lemma_card_plays(config, state, cards, (n - 1) as nat, k);
    }
}

/// A public tree of a hand.
#[derive(Clone, Debug)]
pub struct SubgameTree {
    pub nodes: Vec<PublicNode>,
}

/// How many of the first `n` nodes are decisions.
pub open spec fn decisions(nodes: Seq<NodeView>, n: nat) -> nat
    decreases n,
{
    if n == 0 {
        0
    } else {
        decisions(nodes, (n - 1) as nat) + (if nodes[n - 1].kind is Decision {
            1nat
        } else {
            0
        })
    }
}

/// How many of the first `n` nodes stand for cards to come.
pub open spec fn chances(nodes: Seq<NodeView>, n: nat) -> nat
    decreases n,
{
    if n == 0 {
        0
    } else {
        chances(nodes, (n - 1) as nat) + (if nodes[n - 1].kind is Chance {
            1nat
        } else {
            0
        })
    }
}

/// How many of the first `n` nodes are ends.
pub open spec fn ends(nodes: Seq<NodeView>, n: nat) -> nat
    decreases n,
{
    if n == 0 {
        0
    } else {
        ends(nodes, (n - 1) as nat) + (if nodes[n - 1].kind is Terminal {
            1nat
        } else {
            0
        })
    }
}

/// Every node is a decision, stands for cards to come, or is an end.
pub proof fn kinds_add_up(nodes: Seq<NodeView>, n: nat)
    ensures
        decisions(nodes, n) + chances(nodes, n) + ends(nodes, n) == n,
    decreases n,
{
    if n > 0 {
        kinds_add_up(nodes, (n - 1) as nat);
    }
}

impl SubgameTree {
    /// The tree of a hand from a state on.
    pub fn build<S: Scalar>(root: PublicState, config: SubgameTreeConfig<S>) -> (r: Self)
        requires
            root.board.wf(),
            plays_out(config, root),
        ensures
            node_views(r.nodes@) == state_expanded(config, Seq::empty(), None, root),
            hang_together(node_views(r.nodes@)),
    {
        let mut tree = SubgameTree { nodes: Vec::new() };
        proof {
            assert(node_views(tree.nodes@) =~= Seq::empty());
        }
        tree.expand_state(None, root, &config);
        let count: usize = tree.nodes.len();
        proof {
            assert(node_views(tree.nodes@).len() == count);
            trees_hang_together(config, root);
        }
        tree
    }

    /// The nodes.
    pub fn nodes(&self) -> (r: &[PublicNode])
        ensures
            r@ == self.nodes@,
    {
        self.nodes.as_slice()
    }

    /// How many nodes are decisions.
    pub fn decision_count(&self) -> (r: usize)
        ensures
            r == decisions(node_views(self.nodes@), self.nodes@.len()),
    {
        let mut count: usize = 0;
        for i in 0..self.nodes.len()
            invariant
                count == decisions(node_views(self.nodes@), i as nat),
                count <= i,
        {
            proof {
                assert(node_views(self.nodes@)[i as int] == self.nodes@[i as int]@);
            }
            if let PublicNodeKind::Decision { .. } = &self.nodes[i].kind {
                count = count + 1;
            }
        }
        count
    }

    /// How many nodes stand for cards to come.
    pub fn chance_count(&self) -> (r: usize)
        ensures
            r == chances(node_views(self.nodes@), self.nodes@.len()),
    {
        let mut count: usize = 0;
        for i in 0..self.nodes.len()
            invariant
                count == chances(node_views(self.nodes@), i as nat),
                count <= i,
        {
            proof {
                assert(node_views(self.nodes@)[i as int] == self.nodes@[i as int]@);
            }
            if let PublicNodeKind::Chance { .. } = &self.nodes[i].kind {
                count = count + 1;
            }
        }
        count
    }

    /// How many nodes are ends.
    pub fn terminal_count(&self) -> (r: usize)
        ensures
            r == ends(node_views(self.nodes@), self.nodes@.len()),
    {
        let mut count: usize = 0;
        for i in 0..self.nodes.len()
            invariant
                count == ends(node_views(self.nodes@), i as nat),
                count <= i,
        {
            proof {
                assert(node_views(self.nodes@)[i as int] == self.nodes@[i as int]@);
            }
            if let PublicNodeKind::Terminal { .. } = &self.nodes[i].kind {
                count = count + 1;
            }
        }
        count
    }

    fn push_node(&mut self, parent: Option<usize>, kind: PublicNodeKind) -> (r: usize)
        requires
            parent matches Some(p) ==> p < old(self).nodes@.len(),
        ensures
            r == old(self).nodes@.len(),
            node_views(final(self).nodes@) == node_added(
                node_views(old(self).nodes@),
                parent,
                kind@,
            ),
            final(self).nodes@.len() == old(self).nodes@.len() + 1,
    {
        let ghost before = self.nodes@;
        let ghost views = node_views(before);
        let index: usize = self.nodes.len();
        self.nodes.push(PublicNode { parent, children: Vec::new(), kind });
        proof {
            assert(node_views(self.nodes@) =~= views.push(
                NodeView { parent, children: Seq::empty(), kind: kind@ },
            ));
        }
        let ghost added = node_views(self.nodes@);
        if let Some(p) = parent {
            proof {
                assert(added[p as int] == self.nodes@[p as int]@);
            }
            self.nodes[p].children.push(index);
            proof {
                assert(node_views(self.nodes@) =~= added.update(
                    p as int,
                    NodeView {
                        children: added[p as int].children.push(index),
                        ..added[p as int]
                    },
                ));
            }
        }
        index
    }

    fn expand_state<S: Scalar>(
        &mut self,
        parent: Option<usize>,
        state: PublicState,
        config: &SubgameTreeConfig<S>,
    ) -> (r: usize)
        requires
            state.board.wf(),
            plays_out(*config, state),
            parent matches Some(p) ==> p < old(self).nodes@.len(),
        ensures
            r == old(self).nodes@.len(),
            node_views(final(self).nodes@) == state_expanded(
                *config,
                node_views(old(self).nodes@),
                parent,
                state,
            ),
            old(self).nodes@.len() < final(self).nodes@.len(),
        decreases
            2 * (2 - state.street.place()) + 1,
            raises_left(*config, state),
            checks_left(state),
            1int,
    {
        let over: bool = state.effective_stack == 0 || (state.street == Street::River && state.to_call
            == 0 && state.checks_this_street >= 2);
        if over {
            return self.push_node(
                parent,
                PublicNodeKind::Terminal {
                    kind: TerminalKind::Showdown,
                    board: state.board,
                    pot: state.pot,
                    hero_invested: state.hero_invested,
                    villain_invested: state.villain_invested,
                },
            );
        }
        let request = ActionSetRequest {
            street: state.street,
            pot: state.pot,
            stack: state.effective_stack,
            to_call: state.to_call,
            min_aggressive_amount: state.min_aggressive_amount,
            observed_aggressive_amounts: Vec::new(),
        };
        proof {
            assert(request@.observed =~= Seq::empty());
            assert(request@ == request_of(state));
        }
        let all: Vec<ActionCandidate> = config.action_set.candidates(&request);
        let actions: Vec<ActionCandidate> = if state.raises_this_street
            >= config.max_raises_per_street {
            without_aggressive(&all)
        } else {
            copied_actions(&all)
        };
        proof {
            assert(actions@ == state_actions(*config, state));
            assert forall|k: int| 0 <= k < actions@.len() implies suits_request(
                request_of(state),
                (#[trigger] actions@[k]).action,
            ) && (state.raises_this_street >= config.max_raises_per_street ==> !is_aggressive(
                actions@[k].action,
            )) by {
                assert(all@.contains(actions@[k]));
                let j = choose|j: int| 0 <= j < all@.len() && all@[j] == actions@[k];
                assert(suits_request(request_of(state), all@[j].action));
            }
        }
        let node: usize = self.push_node(
            parent,
            PublicNodeKind::Decision { state, actions: copied_actions(&actions) },
        );
        self.expand_actions(node, &state, &actions, config);
        node
    }

    fn expand_actions<S: Scalar>(
        &mut self,
        parent: usize,
        state: &PublicState,
        actions: &Vec<ActionCandidate>,
        config: &SubgameTreeConfig<S>,
    )
        requires
            state.board.wf(),
            actions_play_out(*config, *state, actions@, actions@.len()),
            parent < old(self).nodes@.len(),
            forall|k: int|
                0 <= k < actions@.len() ==> suits_request(
                    request_of(*state),
                    (#[trigger] actions@[k]).action,
                ) && (state.raises_this_street >= config.max_raises_per_street ==> !is_aggressive(
                    actions@[k].action,
                )),
        ensures
            node_views(final(self).nodes@) == actions_expanded(
                *config,
                node_views(old(self).nodes@),
                parent,
                *state,
                actions@,
                actions@.len(),
            ),
            old(self).nodes@.len() <= final(self).nodes@.len(),
        decreases
            2 * (2 - state.street.place()) + 1,
            raises_left(*config, *state),
            checks_left(*state),
            0int,
    {
        let ghost before = node_views(self.nodes@);
        let ghost count = self.nodes@.len();
        for k in 0..actions.len()
            invariant
                state.board.wf(),
                actions_play_out(*config, *state, actions@, actions@.len()),
                parent < count,
                count <= self.nodes@.len(),
                forall|k: int|
                    0 <= k < actions@.len() ==> suits_request(
                        request_of(*state),
                        (#[trigger] actions@[k]).action,
                    ) && (state.raises_this_street >= config.max_raises_per_street
                        ==> !is_aggressive(actions@[k].action)),
                node_views(self.nodes@) == actions_expanded(
                    *config,
                    before,
                    parent,
                    *state,
                    actions@,
                    k as nat,
                ),
        {
            let action: PlayerAction = actions[k].action;
            proof {
                assert(suits_request(request_of(*state), actions@[k as int].action));
                lemma_action_plays(*config, *state, actions@, actions@.len(), k as int);
            }
            match action {
                PlayerAction::Fold => {
                    self.push_node(
                        Some(parent),
                        PublicNodeKind::Terminal {
                            kind: TerminalKind::Fold,
                            board: state.board,
                            pot: state.pot,
                            hero_invested: state.hero_invested,
                            villain_invested: state.villain_invested,
                        },
                    );
                },
                PlayerAction::Check => {
                    let next: PublicState = state_after_passive_action(state, action);
                    if should_advance_street(state, action) {
                        self.expand_chance(parent, &next, config);
                    } else {
                        self.expand_state(Some(parent), next, config);
                    }
                },
                PlayerAction::Call { .. } => {
                    let next: PublicState = state_after_passive_action(state, action);
                    self.expand_chance(parent, &next, config);
                },
                PlayerAction::Bet { amount } => {
                    proof {
                        assert(pressed_expanded(
                            *config,
                            node_views(self.nodes@),
                            parent,
                            *state,
                            amount,
                        ) == state_expanded(
                            *config,
                            node_views(self.nodes@),
                            Some(parent),
                            pressed(*state, amount),
                        ));
                    }
                    self.expand_state(
                        Some(parent),
                        state_after_aggressive_action(state, amount),
                        config,
                    );
                },
                PlayerAction::Raise { amount } => {
                    proof {
                        assert(pressed_expanded(
                            *config,
                            node_views(self.nodes@),
                            parent,
                            *state,
                            amount,
                        ) == state_expanded(
                            *config,
                            node_views(self.nodes@),
                            Some(parent),
                            pressed(*state, amount),
                        ));
                    }
                    self.expand_state(
                        Some(parent),
                        state_after_aggressive_action(state, amount),
                        config,
                    );
                },
                PlayerAction::AllIn { amount } => {
                    proof {
                        assert(pressed_expanded(
                            *config,
                            node_views(self.nodes@),
                            parent,
                            *state,
                            amount,
                        ) == state_expanded(
                            *config,
                            node_views(self.nodes@),
                            Some(parent),
                            pressed(*state, amount),
                        ));
                    }
                    self.expand_state(
                        Some(parent),
                        state_after_aggressive_action(state, amount),
                        config,
                    );
                },
            }
        }
    }

    fn expand_chance<S: Scalar>(
        &mut self,
        parent: usize,
        state: &PublicState,
        config: &SubgameTreeConfig<S>,
    )
        requires
            state.board.wf(),
            cards_play_out(*config, *state),
            parent < old(self).nodes@.len(),
        ensures
            node_views(final(self).nodes@) == cards_expanded_after(
                *config,
                node_views(old(self).nodes@),
                parent,
                *state,
            ),
            old(self).nodes@.len() < final(self).nodes@.len(),
        decreases 2 * (2 - state.street.place()), 0int, 0int, 0int,
    {
        if state.street == Street::River {
            self.push_node(
                Some(parent),
                PublicNodeKind::Terminal {
                    kind: TerminalKind::Showdown,
                    board: state.board,
                    pot: state.pot,
                    hero_invested: state.hero_invested,
                    villain_invested: state.villain_invested,
                },
            );
            return;
        }
        proof {
            outside_is_without(state.board@);
            deck_without_facts(state.board@);
        }
        let cards: Vec<Card> = remaining_cards(state.board.deck_mask());
        let street: Street = next_street(state.street);
        let chance: usize = self.push_node(
            Some(parent),
            PublicNodeKind::Chance { street, board: state.board, cards: copied_cards(&cards) },
        );
        let ghost before = node_views(self.nodes@);
        let ghost count = self.nodes@.len();
        for k in 0..cards.len()
            invariant
                state.street != Street::River,
                state.board.wf(),
                state.board@.len() < 5,
                each_card_plays_out(*config, *state, cards@, cards@.len()),
                street == street_after(state.street),
                cards@ == deck_without(state.board@),
                forall|i: int| 0 <= i < cards@.len() ==> !state.board@.contains(#[trigger] cards@[i]),
                chance < count <= self.nodes@.len(),
                node_views(self.nodes@) == cards_expanded(
                    *config,
                    before,
                    chance,
                    *state,
                    cards@,
                    k as nat,
                ),
        {
            proof {
                assert(!state.board@.contains(cards@[k as int]));
                lemma_card_plays(*config, *state, cards@, cards@.len(), k as int);
            }
            let mut child: PublicState = *state;
            child.street = street;
            child.board = state.board.with_card(cards[k]);
            child.to_call = 0;
            child.min_aggressive_amount = if state.pot >= 1 {
                state.pot
            } else {
                1
            };
            child.raises_this_street = 0;
            child.checks_this_street = 0;
            proof {
                assert(child == dealt(*state, state.board.with_card_spec(cards@[k as int])));
            }
            self.expand_state(Some(chance), child, config);
        }
    }
}

fn copied_actions(actions: &Vec<ActionCandidate>) -> (r: Vec<ActionCandidate>)
    ensures
        r@ == actions@,
        forall|k: int| 0 <= k < r@.len() ==> actions@.contains(#[trigger] r@[k]),
{
    let mut out: Vec<ActionCandidate> = Vec::new();
    for i in 0..actions.len()
        invariant
            out@ =~= actions@.take(i as int),
    {
        out.push(actions[i]);
    }
    proof {
        assert(out@ =~= actions@);
    }
    out
}

fn copied_cards(cards: &Vec<Card>) -> (r: Vec<Card>)
    ensures
        r@ == cards@,
{
    let mut out: Vec<Card> = Vec::new();
    for i in 0..cards.len()
        invariant
            out@ =~= cards@.take(i as int),
    {
        out.push(cards[i]);
    }
    proof {
        assert(out@ =~= cards@);
    }
    out
}

fn without_aggressive(actions: &Vec<ActionCandidate>) -> (r: Vec<ActionCandidate>)
    ensures
        r@ == passive_only(actions@, actions@.len()),
        forall|k: int|
            0 <= k < r@.len() ==> actions@.contains(#[trigger] r@[k]) && !is_aggressive(r@[k].action),
{
    let mut out: Vec<ActionCandidate> = Vec::new();
    for i in 0..actions.len()
        invariant
            out@ == passive_only(actions@, i as nat),
            forall|k: int|
                0 <= k < out@.len() ==> actions@.contains(#[trigger] out@[k]) && !is_aggressive(
                    out@[k].action,
                ),
    {
        if !is_aggressive_action(actions[i].action) {
            out.push(actions[i]);
        }
    }
    out
}

} // verus!
