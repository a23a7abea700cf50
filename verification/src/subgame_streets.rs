//! Solving a subgame over all streets to come.
use vstd::prelude::*;
use crate::cards::{all_different, mask_of, mask_of_contains, masks_together, Card};
use crate::runouts::{deck_outside, remaining_cards};
use crate::scalar::Scalar;
use crate::subgame::{AbstractionView, ActionAbstraction, Player, PotState, Sides};
use crate::subgame_actions::{
    advance_street, aggressive_spec, apply_aggressive, apply_call, call_spec, legal_actions,
    legal_spec, next_street_spec, ActionKind,
};
use crate::subgame_cfr::{
    entered, ending_value, kept, terminal_utility, ActionVisits, DealtHands, Visit,
};
use crate::subgame_deals::{board_mask, drawn_place, sampled_index, PostflopCombo, DRAW_START};
use crate::subgame_equity::{combo_equity, equity_spec, is_live};
use crate::subgame_nodes::{
    latest, learned, lemma_latest, strategy, strategy_spec, Entry, FactsView, InfoFacts, InfoKey,
    InfoTable, Turn,
};
use crate::subgame_report::copy_cards;
use crate::subgame_tree::{checked_through_spec, copied, raised, NodeId, TerminalKind};

verus! {

/// How many actions of a street a history holds, and how many a decision offers.
pub const ACTION_LIMIT: usize = 8;

/// The actions of a street, with a number that tells them apart.
pub ghost struct History<S> {
    pub actions: Seq<ActionKind<S>>,
    pub code: u64,
}

/// The actions of a street, with a number that tells them apart.
#[derive(Clone, Debug)]
pub struct ActionHistory<S> {
    pub actions: Vec<ActionKind<S>>,
    pub code: u64,
}

impl<S> View for ActionHistory<S> {
    type V = History<S>;

    open spec fn view(&self) -> History<S> {
        History { actions: self.actions@, code: self.code }
    }
}

impl<S: Scalar> History<S> {
    /// No action yet.
    pub open spec fn none() -> Self {
        History { actions: Seq::empty(), code: 0 }
    }

    /// The history with one action more. A full history stays as it is.
    pub open spec fn pushed(self, action: ActionKind<S>, index: int) -> Self {
        if self.actions.len() < ACTION_LIMIT {
            History {
                actions: self.actions.push(action),
                code: self.code | (((index + 1) as u64) << ((self.actions.len() * 4) as u64)),
            }
        } else {
            self
        }
    }
}

impl<S: Scalar> ActionHistory<S> {
    /// No action yet.
    pub fn new() -> (r: Self)
        ensures
            r@ == History::<S>::none(),
    {
        let history = ActionHistory { actions: Vec::new(), code: 0 };
        assert(history.actions@ =~= Seq::empty());
        history
    }

    /// The history with one action more.
    pub fn pushed(&self, action: ActionKind<S>, action_index: usize) -> (r: Self)
        requires
            action_index < ACTION_LIMIT,
        ensures
            r@ == self@.pushed(action, action_index as int),
    {
        let mut actions: Vec<ActionKind<S>> = copied(&self.actions);
        let count: usize = actions.len();
        if count < ACTION_LIMIT {
            actions.push(action);
            let code: u64 = self.code | ((action_index as u64 + 1) << (count as u64 * 4));
            ActionHistory { actions, code }
        } else {
            ActionHistory { actions, code: self.code }
        }
    }
}

/// What does not change while an iteration walks the streets.
pub ghost struct Road<S> {
    pub sizes: AbstractionView<S>,
    pub invested: S,
    pub max_runouts: nat,
    pub oop: PostflopCombo,
    pub ip: PostflopCombo,
    pub turn: Turn<S>,
}

/// A decision on the road.
pub ghost struct Spot<S> {
    pub player: Player,
    pub board: Seq<Card>,
    pub pot: PotState<S>,
    pub raises: u8,
    pub history: History<S>,
    pub left: nat,
}

impl<S: Scalar> Road<S> {
    /// The hands with the share of the pot that the first wins on a board.
    pub open spec fn hands_on(self, board: Seq<Card>) -> DealtHands<S> {
        DealtHands {
            oop: self.oop,
            ip: self.ip,
            equity: equity_spec::<S>(board, self.oop, self.ip, self.max_runouts),
        }
    }

    /// What a player can do, no more than the limit.
    pub open spec fn actions_at(self, spot: Spot<S>) -> Seq<ActionKind<S>> {
        let all = legal_spec(self.sizes, spot.player, spot.pot, spot.raises);
        if all.len() > ACTION_LIMIT {
            all.take(ACTION_LIMIT as int)
        } else {
            all
        }
    }

    /// By what a decision is known: its board, its history on the street, the player and the hand.
    pub open spec fn key_at(self, spot: Spot<S>) -> InfoKey {
        InfoKey {
            place: mask_of(spot.board),
            history: spot.history.code,
            step: (2 * spot.history.actions.len() + (if spot.player is Oop {
                0int
            } else {
                1
            })) as u64,
            hand: self.hands_on(spot.board).hand(spot.player).mask,
        }
    }

    /// What is known of a decision.
    pub open spec fn facts_at(self, spot: Spot<S>) -> FactsView<S> {
        FactsView {
            node: NodeId(0),
            player: spot.player,
            board: spot.board,
            history: spot.history.actions,
            combo: self.hands_on(spot.board).hand(spot.player),
            equity: self.hands_on(spot.board).share(spot.player),
            actions: self.actions_at(spot),
        }
    }
}

/// A strategy for a number of actions: those that it knows, and zero for others.
pub open spec fn fitted<S: Scalar>(strategy: Seq<S>, count: nat) -> Seq<S> {
    Seq::new(
        count,
        |i: int|
            if i < strategy.len() {
                strategy[i]
            } else {
                S::zero_spec()
            },
    )
}

fn fit<S: Scalar>(strategy: &[S], count: usize) -> (r: Vec<S>)
    ensures
        r@ == fitted(strategy@, count as nat),
{
    let mut list: Vec<S> = Vec::new();
    for i in 0..count
        invariant
            list@ =~= fitted(strategy@, i as nat),
    {
        list.push(
            if i < strategy.len() {
                strategy[i]
            } else {
                S::zero()
            },
        );
    }
    list
}

/// The cards drawn for the next street in the first `n` draws: no card twice, no more than a limit.
pub open spec fn next_cards(cards: Seq<Card>, start: int, limit: nat, n: nat) -> Seq<Card>
    decreases n,
{
    if n == 0 {
        Seq::empty()
    } else {
        let front = next_cards(cards, start, limit, (n - 1) as nat);
        let card = cards[drawn_place(start + n - 1, cards.len() as int)];
        if front.len() >= limit || front.contains(card) {
            front
        } else {
            front.push(card)
        }
    }
}

/// How many cards are drawn for the next street.
pub open spec fn card_limit(max_runouts: nat, count: nat) -> nat {
    let wanted = if max_runouts == 0 {
        1
    } else {
        max_runouts
    };
    if wanted < count {
        wanted
    } else {
        count
    }
}

/// Those of the first `n` cards with which a board shares no card with the hands.
pub open spec fn playable(
    board: Seq<Card>,
    cards: Seq<Card>,
    oop: PostflopCombo,
    ip: PostflopCombo,
    n: nat,
) -> Seq<Card>
    decreases n,
{
    if n == 0 {
        Seq::empty()
    } else {
        let front = playable(board, cards, oop, ip, (n - 1) as nat);
        let mask = mask_of(board.push(cards[n - 1]));
        if mask & oop.mask == 0 && mask & ip.mask == 0 {
            front.push(cards[n - 1])
        } else {
            front
        }
    }
}

/// The cards that an iteration looks at on the next street.
pub open spec fn coming<S: Scalar>(road: Road<S>, board: Seq<Card>) -> Seq<Card> {
    let cards = deck_outside(mask_of(board));
    let drawn = next_cards(
        cards,
        road.turn.iteration + board.len(),
        card_limit(road.max_runouts, cards.len()),
        cards.len(),
    );
    playable(board, drawn, road.oop, road.ip, drawn.len())
}

/// What the streets from a decision on give.
pub open spec fn spot_visited<S: Scalar>(
    road: Road<S>,
    spot: Spot<S>,
    reach: Sides<S>,
    entries: Seq<Entry<S>>,
) -> Visit<S>
    decreases 5 - spot.board.len(), spot.left, 4int, 0int,
{
    let actions = road.actions_at(spot);
    let key = road.key_at(spot);
    let known = entered(entries, key, road.facts_at(spot));
    let place = latest(known, key, known.len());
    let strategy = fitted(strategy_spec(known[place].regrets), actions.len());
    let visits = choices_visited(road, spot, actions, strategy, reach, known, actions.len());
    Visit {
        value: visits.value,
        entries: visits.entries.update(
            place,
            learned(
                visits.entries[place],
                spot.player,
                reach,
                strategy,
                visits.values,
                visits.value,
                road.turn,
            ),
        ),
    }
}

/// What the first `k` actions of a decision give.
pub open spec fn choices_visited<S: Scalar>(
    road: Road<S>,
    spot: Spot<S>,
    actions: Seq<ActionKind<S>>,
    strategy: Seq<S>,
    reach: Sides<S>,
    entries: Seq<Entry<S>>,
    k: nat,
) -> ActionVisits<S>
    decreases 5 - spot.board.len(), spot.left, 3int, k,
{
    if k == 0 {
        ActionVisits { values: Seq::empty(), value: S::zero_spec(), entries }
    } else {
        let front = choices_visited(
            road,
            spot,
            actions,
            strategy,
            reach,
            entries,
            (k - 1) as nat,
        );
        let share = strategy[k - 1];
        let below = action_visited(
            road,
            spot,
            actions[k - 1],
            k - 1,
            reach.with_spec(spot.player, reach.of_spec(spot.player).times_spec(share)),
            front.entries,
        );
        ActionVisits {
            values: front.values.push(below.value),
            value: front.value.plus_spec(share.times_spec(below.value)),
            entries: below.entries,
        }
    }
}

/// What an action leads to: the end of the hand, of the street, or a decision of the other player.
/// A street on which more actions are taken than can be counted ends as well.
pub open spec fn action_visited<S: Scalar>(
    road: Road<S>,
    spot: Spot<S>,
    action: ActionKind<S>,
    index: int,
    reach: Sides<S>,
    entries: Seq<Entry<S>>,
) -> Visit<S>
    decreases 5 - spot.board.len(), spot.left, 2int, 0int,
{
    let history = spot.history.pushed(action, index);
    let other = spot.player.other_spec();
    match action {
        ActionKind::Fold => Visit {
            value: ending_value(
                TerminalKind::Fold { winner: other },
                spot.pot,
                road.invested,
                S::zero_spec(),
            ),
            entries,
        },
        ActionKind::Call => street_ended(
            road,
            spot.board,
            call_spec(spot.player, spot.pot),
            reach,
            entries,
        ),
        _ => if spot.left == 0 || (action is Check && checked_through_spec(history.actions)) {
            street_ended(road, spot.board, spot.pot, reach, entries)
        } else {
            spot_visited(
                road,
                Spot {
                    player: other,
                    board: spot.board,
                    pot: pot_after(spot.player, spot.pot, action),
                    raises: raises_after(spot.raises, action),
                    history,
                    left: (spot.left - 1) as nat,
                },
                reach,
                entries,
            )
        },
    }
}

/// The pot after a check, bet, raise or shove.
pub open spec fn pot_after<S: Scalar>(player: Player, pot: PotState<S>, action: ActionKind<S>) -> PotState<
    S,
> {
    match action {
        ActionKind::Bet(amount) => aggressive_spec(player, pot, amount),
        ActionKind::Raise(amount) => aggressive_spec(player, pot, amount),
        ActionKind::AllIn(amount) => aggressive_spec(player, pot, amount),
        _ => pot,
    }
}

/// How often was raised after a check, bet, raise or shove.
pub open spec fn raises_after<S>(raises: u8, action: ActionKind<S>) -> u8 {
    match action {
        ActionKind::Raise(_) => raised(raises),
        ActionKind::AllIn(_) => raised(raises),
        _ => raises,
    }
}

/// What the end of a street gives: a showdown on the river or where no card can come, or else the
/// mean over the cards that are looked at.
pub open spec fn street_ended<S: Scalar>(
    road: Road<S>,
    board: Seq<Card>,
    pot: PotState<S>,
    reach: Sides<S>,
    entries: Seq<Entry<S>>,
) -> Visit<S>
    decreases 5 - board.len(), 0int, 1int, 0int,
{
    let cards = coming(road, board);
    if board.len() >= 5 || cards.len() == 0 {
        Visit {
            value: ending_value(
                TerminalKind::Showdown,
                pot,
                road.invested,
                road.hands_on(board).equity,
            ),
            entries,
        }
    } else {
        let chance = S::one_spec().over_spec(S::from_count_spec(cards.len() as usize));
        let sum = cards_visited(
            road,
            board,
            next_street_spec(pot),
            Sides { oop: reach.oop.times_spec(chance), ip: reach.ip.times_spec(chance) },
            cards,
            entries,
            cards.len(),
        );
        Visit { value: sum.value.times_spec(chance), entries: sum.entries }
    }
}

/// What the first `k` cards of the next street give, added up.
pub open spec fn cards_visited<S: Scalar>(
    road: Road<S>,
    board: Seq<Card>,
    pot: PotState<S>,
    reach: Sides<S>,
    cards: Seq<Card>,
    entries: Seq<Entry<S>>,
    k: nat,
) -> Visit<S>
    decreases 5 - board.len(), 0int, 0int, k,
{
    if k == 0 || board.len() >= 5 {
        Visit { value: S::zero_spec(), entries }
    } else {
        let front = cards_visited(road, board, pot, reach, cards, entries, (k - 1) as nat);
        let below = spot_visited(
            road,
            street_start(board.push(cards[k - 1]), pot),
            reach,
            front.entries,
        );
        Visit { value: front.value.plus_spec(below.value), entries: below.entries }
    }
}

/// The first decision of a street.
pub open spec fn street_start<S: Scalar>(board: Seq<Card>, pot: PotState<S>) -> Spot<S> {
    Spot {
        player: Player::Oop,
        board,
        pot,
        raises: 0,
        history: History::none(),
        left: usize::MAX as nat,
    }
}

/// What does not change while an iteration walks the streets.
pub struct RoadFacts<'a, S> {
    pub sizes: &'a ActionAbstraction<S>,
    pub invested: S,
    pub max_runouts: usize,
    pub oop: PostflopCombo,
    pub ip: PostflopCombo,
    pub turn: Turn<S>,
}

impl<'a, S: Scalar> RoadFacts<'a, S> {
    /// The facts by value.
    pub open spec fn road(self) -> Road<S> {
        Road {
            sizes: self.sizes@,
            invested: self.invested,
            max_runouts: self.max_runouts as nat,
            oop: self.oop,
            ip: self.ip,
            turn: self.turn,
        }
    }

    /// Whether a board can lie with the hands, and draws can be counted.
    pub open spec fn plays(self, board: Seq<Card>) -> bool {
        &&& 3 <= board.len() <= 5
        &&& all_different(board)
        &&& is_live(board, self.oop)
        &&& is_live(board, self.ip)
        &&& self.turn.iteration + 64 <= usize::MAX
        &&& self.turn.iteration + 64 + DRAW_START <= u64::MAX
    }

    fn hands_on(&self, board: &[Card]) -> (r: DealtHands<S>)
        requires
            self.plays(board@),
        ensures
            r == self.road().hands_on(board@),
    {
        DealtHands {
            oop: self.oop,
            ip: self.ip,
            equity: combo_equity(board, &self.oop, &self.ip, self.max_runouts),
        }
    }

    fn coming(&self, board: &[Card]) -> (r: Vec<Card>)
        requires
            self.plays(board@),
        ensures
            r@ == coming(self.road(), board@),
            board@.len() < 5 ==> forall|i: int|
                0 <= i < r@.len() ==> self.plays(board@.push(#[trigger] r@[i])),
    {
        let mask: u64 = board_mask(board);
        let cards: Vec<Card> = remaining_cards(mask);
        let count: usize = cards.len();
        let wanted: usize = if self.max_runouts == 0 {
            1
        } else {
            self.max_runouts
        };
        let limit: usize = if wanted < count {
            wanted
        } else {
            count
        };
        let start: usize = self.turn.iteration + board.len();
        let mut drawn: Vec<Card> = Vec::new();
        for n in 0..count
            invariant
                self.plays(board@),
                count == cards@.len(),
                count <= 52,
                start == self.turn.iteration + board@.len(),
                drawn@ == next_cards(cards@, start as int, limit as nat, n as nat),
                forall|i: int| 0 <= i < drawn@.len() ==> cards@.contains(#[trigger] drawn@[i]),
        {
            let card: Card = cards[sampled_index(start + n, count)];
            if drawn.len() < limit && !holds(&drawn, card) {
                drawn.push(card);
            }
        }
        let mut playable_cards: Vec<Card> = Vec::new();
        for n in 0..drawn.len()
            invariant
                self.plays(board@),
                mask == mask_of(board@),
                forall|i: int| 0 <= i < drawn@.len() ==> cards@.contains(#[trigger] drawn@[i]),
                forall|i: int| 0 <= i < cards@.len() ==> (#[trigger] cards@[i]).bit() & mask == 0,
                playable_cards@ == playable(board@, drawn@, self.oop, self.ip, n as nat),
                board@.len() < 5 ==> forall|i: int|
                    0 <= i < playable_cards@.len() ==> self.plays(
                        board@.push(#[trigger] playable_cards@[i]),
                    ),
        {
            let card: Card = drawn[n];
            let next: u64 = mask | card.deck_mask();
            proof {
                assert(board@.push(card).drop_last() =~= board@);
                assert(next == mask_of(board@.push(card)));
            }
            if next & self.oop.mask == 0 && next & self.ip.mask == 0 {
                proof {
                    assert(cards@.contains(drawn@[n as int]));
                    let i = choose|i: int| 0 <= i < cards@.len() && cards@[i] == card;
                    assert(cards@[i].bit() & mask == 0);
                    masks_together(card.bit(), card.bit(), mask);
                    mask_of_contains(board@, card);
                    masks_together(next, next, self.oop.mask);
                    masks_together(next, next, self.ip.mask);
                    let full = board@.push(card);
                    assert forall|a: int, b: int| 0 <= a < b < full.len() implies #[trigger] full[a]
                        != #[trigger] full[b] by {
                        if b == board@.len() {
                            assert(board@.contains(board@[a]));
                        }
                    }
                }
                playable_cards.push(card);
            }
        }
        playable_cards
    }
}

fn holds(cards: &[Card], card: Card) -> (r: bool)
    ensures
        r == cards@.contains(card),
{
    for i in 0..cards.len()
        invariant
            forall|j: int| 0 <= j < i ==> #[trigger] cards@[j] != card,
    {
        if cards[i] == card {
            assert(cards@[i as int] == card);
            return true;
        }
    }
    false
}

fn with_next(board: &[Card], card: Card) -> (r: Vec<Card>)
    ensures
        r@ == board@.push(card),
{
    let mut next: Vec<Card> = copy_cards(board);
    next.push(card);
    next
}

/// A decision on the road.
#[derive(Clone, Debug)]
pub struct StreetSpot<S> {
    pub player: Player,
    pub board: Vec<Card>,
    pub pot: PotState<S>,
    pub raises: u8,
    pub history: ActionHistory<S>,
    pub left: usize,
}

impl<S: Scalar> View for StreetSpot<S> {
    type V = Spot<S>;

    open spec fn view(&self) -> Spot<S> {
        Spot {
            player: self.player,
            board: self.board@,
            pot: self.pot,
            raises: self.raises,
            history: self.history@,
            left: self.left as nat,
        }
    }
}

fn actions_at<S: Scalar>(road: &RoadFacts<'_, S>, spot: &StreetSpot<S>) -> (r: Vec<ActionKind<S>>)
    ensures
        r@ == road.road().actions_at(spot@),
        r@.len() <= ACTION_LIMIT,
{
    let all: Vec<ActionKind<S>> = legal_actions(road.sizes, spot.player, spot.pot, spot.raises);
    if all.len() <= ACTION_LIMIT {
        return all;
    }
    let mut actions: Vec<ActionKind<S>> = Vec::new();
    for i in 0..ACTION_LIMIT
        invariant
            all@.len() > ACTION_LIMIT,
            actions@ =~= all@.take(i as int),
    {
        actions.push(all[i]);
    }
    actions
}

/// Plays on from a decision: below every action, and learns at it.
#[verifier::spinoff_prover]
#[verifier::rlimit(80)]
pub fn visit_spot<S: Scalar>(
    road: &RoadFacts<'_, S>,
    spot: &StreetSpot<S>,
    reach: Sides<S>,
    table: &mut InfoTable<S>,
) -> (r: S)
    requires
        road.plays(spot.board@),
        spot.history.actions@.len() <= ACTION_LIMIT,
        old(table).wf(),
    ensures
        final(table).wf(),
        kept(old(table)@, final(table)@),
        ({
            let visit = spot_visited(road.road(), spot@, reach, old(table)@);
            r == visit.value && final(table)@ == visit.entries
        }),
    decreases 5 - spot.board@.len(), spot.left, 2int,
{
    let actions: Vec<ActionKind<S>> = actions_at(road, spot);
    let player: Player = spot.player;
    let hand: PostflopCombo = match player {
        Player::Oop => road.oop,
        Player::Ip => road.ip,
    };
    let key: InfoKey = InfoKey {
        place: board_mask(&spot.board),
        history: spot.history.code,
        step: 2 * spot.history.actions.len() as u64 + player.index() as u64,
        hand: hand.mask,
    };
    let ghost all = road.road();
    let ghost at = spot@;
    let ghost start = table@;
    let ghost known = entered(start, key, all.facts_at(at));
    assert(key == all.key_at(at));
    let place: usize = match table.find(key) {
        Some(place) => place,
        None => {
            let place: usize = table.len();
            let hands: DealtHands<S> = road.hands_on(&spot.board);
            table.push(
                key,
                InfoFacts {
                    node: NodeId(0),
                    player,
                    board: copy_cards(&spot.board),
                    history: copied(&spot.history.actions),
                    combo: hand,
                    equity: match player {
                        Player::Oop => hands.equity,
                        Player::Ip => S::one().minus(hands.equity),
                    },
                    actions: copied(&actions),
                },
            );
            place
        },
    };
    proof {
        lemma_latest(known, key, known.len());
        assert(table@ =~= known);
        assert(place == latest(known, key, known.len()));
    }
    let shares: Vec<S> = fit(&strategy(table.regrets_at(place)), actions.len());
    let mut values: Vec<S> = Vec::new();
    let mut value: S = S::zero();
    for k in 0..actions.len()
        invariant
            road.plays(spot.board@),
            spot.history.actions@.len() <= ACTION_LIMIT,
            all == road.road(),
            at == spot@,
            player == spot.player,
            actions@.len() <= ACTION_LIMIT,
            shares@.len() == actions@.len(),
            table.wf(),
            kept(known, table@),
            values@.len() == k,
            ({
                let visits = choices_visited(
                    all,
                    at,
                    actions@,
                    shares@,
                    reach,
                    known,
                    k as nat,
                );
                values@ == visits.values && value == visits.value && table@ == visits.entries
            }),
    {
        let share: S = shares[k];
        let below: S = visit_action(
            road,
            spot,
            actions[k],
            k,
            reach.with(player, reach.of(player).times(share)),
            table,
        );
        values.push(below);
        value = value.plus(share.times(below));
    }
    proof {
        assert(kept(known, table@));
        assert(table@[place as int].facts == known[place as int].facts);
    }
    table.learn(place, player, reach, &shares, &values, value, road.turn);
    value
}

#[verifier::spinoff_prover]
#[verifier::rlimit(60)]
fn visit_action<S: Scalar>(
    road: &RoadFacts<'_, S>,
    spot: &StreetSpot<S>,
    action: ActionKind<S>,
    index: usize,
    reach: Sides<S>,
    table: &mut InfoTable<S>,
) -> (r: S)
    requires
        road.plays(spot.board@),
        spot.history.actions@.len() <= ACTION_LIMIT,
        index < ACTION_LIMIT,
        old(table).wf(),
    ensures
        final(table).wf(),
        kept(old(table)@, final(table)@),
        ({
            let visit = action_visited(road.road(), spot@, action, index as int, reach, old(table)@);
            r == visit.value && final(table)@ == visit.entries
        }),
    decreases 5 - spot.board@.len(), spot.left, 1int,
{
    let player: Player = spot.player;
    let pot: PotState<S> = spot.pot;
    let history: ActionHistory<S> = spot.history.pushed(action, index);
    let more: u8 = if spot.raises < u8::MAX {
        spot.raises + 1
    } else {
        spot.raises
    };
    let (ends, pot, raises): (bool, PotState<S>, u8) = match action {
        ActionKind::Fold => {
            return terminal_utility(
                TerminalKind::Fold { winner: player.other() },
                pot,
                road.invested,
                S::zero(),
            );
        },
        ActionKind::Call => {
            return end_street(road, &spot.board, apply_call(player, pot), reach, table);
        },
        ActionKind::Check => (
            crate::subgame_tree::checked_through(&history.actions),
            pot,
            spot.raises,
        ),
        ActionKind::Bet(amount) => (false, apply_aggressive(player, pot, amount), spot.raises),
        ActionKind::Raise(amount) => (false, apply_aggressive(player, pot, amount), more),
        ActionKind::AllIn(amount) => (false, apply_aggressive(player, pot, amount), more),
    };
    if spot.left == 0 || ends {
        return end_street(road, &spot.board, spot.pot, reach, table);
    }
    let next: StreetSpot<S> = StreetSpot {
        player: player.other(),
        board: copy_cards(&spot.board),
        pot,
        raises,
        history,
        left: spot.left - 1,
    };
    visit_spot(road, &next, reach, table)
}

#[verifier::spinoff_prover]
#[verifier::rlimit(60)]
fn end_street<S: Scalar>(
    road: &RoadFacts<'_, S>,
    board: &Vec<Card>,
    pot: PotState<S>,
    reach: Sides<S>,
    table: &mut InfoTable<S>,
) -> (r: S)
    requires
        road.plays(board@),
        old(table).wf(),
    ensures
        final(table).wf(),
        kept(old(table)@, final(table)@),
        ({
            let visit = street_ended(road.road(), board@, pot, reach, old(table)@);
            r == visit.value && final(table)@ == visit.entries
        }),
    decreases 5 - board@.len(), 0int, 0int,
{
    let cards: Vec<Card> = road.coming(board);
    if board.len() == 5 || cards.len() == 0 {
        let hands: DealtHands<S> = road.hands_on(board);
        return terminal_utility(TerminalKind::Showdown, pot, road.invested, hands.equity);
    }
    let count: usize = cards.len();
    let chance: S = S::one().over(S::from_count(count));
    let next_pot: PotState<S> = advance_street(pot);
    let next_reach: Sides<S> = Sides::new(reach.oop.times(chance), reach.ip.times(chance));
    let ghost all = road.road();
    let ghost start = table@;
    let mut sum: S = S::zero();
    for k in 0..count
        invariant
            count == cards@.len(),
            all == road.road(),
            board@.len() < 5,
            forall|i: int|
                0 <= i < cards@.len() ==> road.plays(board@.push(#[trigger] cards@[i])),
            table.wf(),
            kept(start, table@),
            ({
                let visit = cards_visited(
                    all,
                    board@,
                    next_pot,
                    next_reach,
                    cards@,
                    start,
                    k as nat,
                );
                sum == visit.value && table@ == visit.entries
            }),
    {
        let next: StreetSpot<S> = StreetSpot {
            player: Player::Oop,
            board: with_next(board, cards[k]),
            pot: next_pot,
            raises: 0,
            history: ActionHistory::new(),
            left: usize::MAX,
        };
        assert(road.plays(board@.push(cards@[k as int])));
        assert(next@ == street_start(board@.push(cards@[k as int]), next_pot));
        let below: S = visit_spot(road, &next, next_reach, table);
        sum = sum.plus(below);
    }
    sum.times(chance)
}

} // verus!
