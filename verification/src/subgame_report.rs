//! How the hands of a subgame act, in the order in which it is reported.
use vstd::prelude::*;
use crate::cards::Card;
use crate::scalar::Scalar;
use crate::sorting::{is_sorting, sorted_positions, sorting, SortKey};
use crate::subgame::Player;
use crate::subgame_actions::ActionKind;
use crate::subgame_deals::PostflopCombo;
use crate::subgame_nodes::{shares, shares_of, Entry, InfoFacts, InfoTable};
use crate::subgame_tree::{copied, NodeId};

verus! {

/// How often an action is taken.
#[derive(Clone, Copy, Debug)]
pub struct SubgameActionFrequency<S> {
    pub action: ActionKind<S>,
    pub frequency: S,
}

/// How a hand acts at a decision.
#[derive(Clone, Debug)]
pub struct SubgameComboStrategy<S> {
    pub node: NodeId,
    pub player: Player,
    pub board: Vec<Card>,
    pub history: Vec<ActionKind<S>>,
    pub combo: PostflopCombo,
    pub equity: S,
    pub actions: Vec<SubgameActionFrequency<S>>,
}

/// How a hand acts at a decision, by value.
pub ghost struct StrategyView<S> {
    pub node: NodeId,
    pub player: Player,
    pub board: Seq<Card>,
    pub history: Seq<ActionKind<S>>,
    pub combo: PostflopCombo,
    pub equity: S,
    pub actions: Seq<SubgameActionFrequency<S>>,
}

impl<S> View for SubgameComboStrategy<S> {
    type V = StrategyView<S>;

    open spec fn view(&self) -> StrategyView<S> {
        StrategyView {
            node: self.node,
            player: self.player,
            board: self.board@,
            history: self.history@,
            combo: self.combo,
            equity: self.equity,
            actions: self.actions@,
        }
    }
}

/// What solving a subgame gives.
#[derive(Clone, Debug)]
pub struct SubgameCfrResult<S> {
    pub iterations: usize,
    pub expected_value_oop: S,
    pub root: NodeId,
    pub node_count: usize,
    pub oop_combo_count: usize,
    pub ip_combo_count: usize,
    pub strategies: Vec<SubgameComboStrategy<S>>,
}

/// How often each action of an entry was taken.
pub open spec fn average_spec<S: Scalar>(entry: Entry<S>) -> Seq<SubgameActionFrequency<S>> {
    Seq::new(
        entry.facts.actions.len(),
        |i: int|
            SubgameActionFrequency {
                action: entry.facts.actions[i],
                frequency: shares(entry.sums)[i],
            },
    )
}

/// How the hand of an entry acts.
pub open spec fn strategy_view<S: Scalar>(entry: Entry<S>) -> StrategyView<S> {
    StrategyView {
        node: entry.facts.node,
        player: entry.facts.player,
        board: entry.facts.board,
        history: entry.facts.history,
        combo: entry.facts.combo,
        equity: entry.facts.equity,
        actions: average_spec(entry),
    }
}

/// The place of a player in reports.
pub open spec fn player_place(player: Player) -> u8 {
    match player {
        Player::Oop => 0,
        Player::Ip => 1,
    }
}

/// The place of a player in reports.
pub fn player_key(player: Player) -> (r: u8)
    ensures
        r == player_place(player),
{
    match player {
        Player::Oop => 0,
        Player::Ip => 1,
    }
}

/// By what reports of one street are ordered: by node and player, the best hand first, then by the
/// letters of the hand.
pub open spec fn node_order<S: Scalar>(entry: Entry<S>) -> SortKey {
    SortKey {
        first: entry.facts.node.0 as u64,
        second: player_place(entry.facts.player) as u64,
        third: (u64::MAX - entry.facts.equity.place_spec()) as u64,
        fourth: entry.facts.combo.combo.label_key_spec(),
    }
}

/// By what reports of several streets are ordered: by player and length of the history, the best
/// hand first, then by the letters of the hand.
pub open spec fn history_order<S: Scalar>(entry: Entry<S>) -> SortKey {
    SortKey {
        first: player_place(entry.facts.player) as u64,
        second: entry.facts.history.len() as u64,
        third: (u64::MAX - entry.facts.equity.place_spec()) as u64,
        fourth: entry.facts.combo.combo.label_key_spec(),
    }
}

/// By what reports are ordered.
pub open spec fn report_key<S: Scalar>(entry: Entry<S>, by_node: bool) -> SortKey {
    if by_node {
        node_order(entry)
    } else {
        history_order(entry)
    }
}

fn key_of<S: Scalar>(facts: &InfoFacts<S>, by_node: bool, entry: Ghost<Entry<S>>) -> (r: SortKey)
    requires
        facts@ == entry@.facts,
    ensures
        r == report_key(entry@, by_node),
{
    let player: u64 = player_key(facts.player) as u64;
    let third: u64 = u64::MAX - facts.equity.place();
    let fourth: u64 = facts.combo.combo.label_key();
    if by_node {
        SortKey { first: facts.node.0 as u64, second: player, third, fourth }
    } else {
        SortKey { first: player, second: facts.history.len() as u64, third, fourth }
    }
}

/// The places of those of the first `n` entries that are on a board.
pub open spec fn on_board<S>(entries: Seq<Entry<S>>, board: Seq<Card>, n: nat) -> Seq<usize>
    decreases n,
{
    if n == 0 {
        Seq::empty()
    } else {
        let front = on_board(entries, board, (n - 1) as nat);
        if entries[n - 1].facts.board == board {
            front.push((n - 1) as usize)
        } else {
            front
        }
    }
}

/// How the hands on a board act, in the order in which it is reported.
pub open spec fn reported<S: Scalar>(entries: Seq<Entry<S>>, board: Seq<Card>, by_node: bool) -> Seq<
    StrategyView<S>,
> {
    let places = on_board(entries, board, entries.len());
    let order = sorting(
        Seq::new(places.len(), |i: int| report_key(entries[places[i] as int], by_node)),
    );
    Seq::new(order.len(), |i: int| strategy_view(entries[places[order[i] as int] as int]))
}

fn same_cards(left: &[Card], right: &[Card]) -> (r: bool)
    ensures
        r == (left@ == right@),
{
    if left.len() != right.len() {
        return false;
    }
    for i in 0..left.len()
        invariant
            left@.len() == right@.len(),
            forall|j: int| 0 <= j < i ==> #[trigger] left@[j] == right@[j],
    {
        if left[i] != right[i] {
            return false;
        }
    }
    assert(left@ =~= right@);
    true
}

/// A copy of a list of cards.
pub fn copy_cards(cards: &[Card]) -> (r: Vec<Card>)
    ensures
        r@ == cards@,
{
    let mut copy: Vec<Card> = Vec::new();
    for i in 0..cards.len()
        invariant
            copy@ =~= cards@.take(i as int),
    {
        copy.push(cards[i]);
    }
    assert(cards@.take(cards@.len() as int) =~= cards@);
    copy
}

/// The places of the entries on a board.
pub fn places_on_board<S: Scalar>(table: &InfoTable<S>, board: &[Card]) -> (r: Vec<usize>)
    requires
        table.wf(),
    ensures
        r@ == on_board(table@, board@, table@.len()),
        forall|i: int| 0 <= i < r@.len() ==> #[trigger] r@[i] < table@.len(),
{
    let mut places: Vec<usize> = Vec::new();
    let count: usize = table.len();
    for n in 0..count
        invariant
            table.wf(),
            count == table@.len(),
            places@ == on_board(table@, board@, n as nat),
            forall|i: int| 0 <= i < places@.len() ==> #[trigger] places@[i] < table@.len(),
    {
        if same_cards(&table.facts_at(n).board, board) {
            places.push(n);
        }
    }
    places
}

fn strategy_at<S: Scalar>(table: &InfoTable<S>, place: usize) -> (r: SubgameComboStrategy<S>)
    requires
        table.wf(),
        place < table@.len(),
    ensures
        r@ == strategy_view(table@[place as int]),
{
    let ghost entry = table@[place as int];
    proof {
        table.wf_facts();
    }
    let facts: &InfoFacts<S> = table.facts_at(place);
    let frequencies: Vec<S> = shares_of(table.sums_at(place));
    let mut actions: Vec<SubgameActionFrequency<S>> = Vec::new();
    for i in 0..facts.actions.len()
        invariant
            facts@ == entry.facts,
            frequencies@ == shares(entry.sums),
            entry.sums.len() == entry.facts.actions.len(),
            actions@ =~= average_spec(entry).take(i as int),
    {
        actions.push(
            SubgameActionFrequency { action: facts.actions[i], frequency: frequencies[i] },
        );
        assert(average_spec(entry).take(i + 1) =~= average_spec(entry).take(i as int).push(
            average_spec(entry)[i as int],
        ));
    }
    assert(actions@ =~= average_spec(entry));
    SubgameComboStrategy {
        node: facts.node,
        player: facts.player,
        board: copy_cards(&facts.board),
        history: copied(&facts.history),
        combo: facts.combo,
        equity: facts.equity,
        actions,
    }
}

/// Whether strategies are those of a list.
pub open spec fn strategies_match<S>(
    strategies: Seq<SubgameComboStrategy<S>>,
    list: Seq<StrategyView<S>>,
) -> bool {
    &&& strategies.len() == list.len()
    &&& forall|i: int| 0 <= i < list.len() ==> (#[trigger] strategies[i])@ == list[i]
}

/// How the hands on a board act, in the order in which it is reported.
pub fn combo_strategies<S: Scalar>(table: &InfoTable<S>, board: &[Card], by_node: bool) -> (r: Vec<
    SubgameComboStrategy<S>,
>)
    requires
        table.wf(),
    ensures
        strategies_match(r@, reported(table@, board@, by_node)),
{
    let places: Vec<usize> = places_on_board(table, board);
    let mut keys: Vec<SortKey> = Vec::new();
    for i in 0..places.len()
        invariant
            table.wf(),
            forall|i: int| 0 <= i < places@.len() ==> #[trigger] places@[i] < table@.len(),
            keys@ =~= Seq::new(
                i as nat,
                |i: int| report_key(table@[places@[i] as int], by_node),
            ),
    {
        let place: usize = places[i];
        assert(places@[i as int] < table@.len());
        keys.push(key_of(table.facts_at(place), by_node, Ghost(table@[place as int])));
    }
    let order: Vec<usize> = sorted_positions(&keys);
    assert(keys@ =~= Seq::new(
        places@.len(),
        |i: int| report_key(table@[places@[i] as int], by_node),
    ));
    let ghost list = reported(table@, board@, by_node);
    let mut strategies: Vec<SubgameComboStrategy<S>> = Vec::new();
    for k in 0..order.len()
        invariant
            table.wf(),
            is_sorting(keys@, 0, places@.len() as int, order@),
            forall|i: int| 0 <= i < places@.len() ==> #[trigger] places@[i] < table@.len(),
            list == Seq::new(
                order@.len(),
                |i: int| strategy_view(table@[places@[order@[i] as int] as int]),
            ),
            strategies@.len() == k,
            forall|i: int| 0 <= i < k ==> (#[trigger] strategies@[i])@ == list[i],
    {
        assert(0 <= order@[k as int] < places@.len());
        assert(places@[order@[k as int] as int] < table@.len());
        strategies.push(strategy_at(table, places[order[k]]));
    }
    strategies
}

} // verus!
