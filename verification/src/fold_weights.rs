//! How much of an opponent's range each hand can be up against.
use vstd::prelude::*;
use crate::cards::{card_ids_differ, card_position_round_trip, Board, Card};
use crate::cfr_math::zeros;
use crate::index_map::KeyMap;
use crate::isomorphism::made_of;
use crate::range::ComboWeight;
use crate::scalar::{ExactScalar, Scalar};
use crate::sums::sum_below;
use crate::terminal_board::{lemma_pair_key, private_combo_key};

verus! {

/// Whether a combo holds a card of a board.
pub open spec fn is_blocked<S>(combo: ComboWeight<S>, board: Seq<Card>) -> bool {
    board.contains(combo.first) || board.contains(combo.second)
}

/// Whether two combos share a card.
pub open spec fn collide<S>(a: ComboWeight<S>, b: ComboWeight<S>) -> bool {
    a.first == b.first || a.first == b.second || a.second == b.first || a.second == b.second
}

/// Whether two combos share a card.
pub fn combos_collide<S: Scalar>(left: &ComboWeight<S>, right: &ComboWeight<S>) -> (r: bool)
    ensures
        r == collide(*left, *right),
{
    left.first == right.first || left.first == right.second || left.second == right.first
        || left.second == right.second
}

/// The reach of the first `n` opponents that a hand can be up against: off the board and without a card
/// in common.
pub open spec fn pair_weight<S: Scalar>(
    own: ComboWeight<S>,
    opponents: Seq<ComboWeight<S>>,
    reach: Seq<S>,
    board: Seq<Card>,
    n: nat,
) -> S
    decreases n,
{
    if n == 0 {
        S::zero_spec()
    } else {
        let front = pair_weight(own, opponents, reach, board, (n - 1) as nat);
        let opponent = opponents[n - 1];
        if reach[n - 1].exceeds_spec(S::zero_spec()) && !is_blocked(opponent, board) && !collide(
            own,
            opponent,
        ) {
            front.plus_spec(reach[n - 1])
        } else {
            front
        }
    }
}

/// The reach that each hand can be up against, pair by pair.
pub fn opponent_weights_for<S: Scalar>(
    own_combos: &[ComboWeight<S>],
    opponent_combos: &[ComboWeight<S>],
    opponent_reach: &[S],
    board: &Board,
) -> (r: Vec<S>)
    requires
        board.wf(),
        opponent_combos@.len() == opponent_reach@.len(),
    ensures
        r@.len() == own_combos@.len(),
        forall|i: int|
            0 <= i < r@.len() ==> #[trigger] r@[i] == (if is_blocked(own_combos@[i], board@) {
                S::zero_spec()
            } else {
                pair_weight(
                    own_combos@[i],
                    opponent_combos@,
                    opponent_reach@,
                    board@,
                    opponent_combos@.len(),
                )
            }),
{
    let mut out: Vec<S> = Vec::new();
    for i in 0..own_combos.len()
        invariant
            board.wf(),
            opponent_combos@.len() == opponent_reach@.len(),
            out@.len() == i,
            forall|k: int|
                0 <= k < i ==> #[trigger] out@[k] == (if is_blocked(own_combos@[k], board@) {
                    S::zero_spec()
                } else {
                    pair_weight(
                        own_combos@[k],
                        opponent_combos@,
                        opponent_reach@,
                        board@,
                        opponent_combos@.len(),
                    )
                }),
    {
        let own: &ComboWeight<S> = &own_combos[i];
        if board.contains(own.first) || board.contains(own.second) {
            out.push(S::zero());
        } else {
            let mut weight: S = S::zero();
            for j in 0..opponent_combos.len()
                invariant
                    board.wf(),
                    opponent_combos@.len() == opponent_reach@.len(),
                    weight == pair_weight(
                        *own,
                        opponent_combos@,
                        opponent_reach@,
                        board@,
                        j as nat,
                    ),
            {
                let opponent: &ComboWeight<S> = &opponent_combos[j];
                if opponent_reach[j].exceeds(S::zero()) && !board.contains(opponent.first)
                    && !board.contains(opponent.second) && !combos_collide(own, opponent) {
                    weight = weight.plus(opponent_reach[j]);
                }
            }
            out.push(weight);
        }
    }
    out
}

/// Whether an opponent's hand counts: it is off the board and is reached.
pub open spec fn counts<S: Scalar>(combo: ComboWeight<S>, reach: S, board: Seq<Card>) -> bool {
    !reach.same_spec(S::zero_spec()) && !is_blocked(combo, board)
}

/// The reach of the first `n` opponents that count.
pub open spec fn live_total<S: Scalar>(
    opponents: Seq<ComboWeight<S>>,
    reach: Seq<S>,
    board: Seq<Card>,
    n: nat,
) -> S
    decreases n,
{
    if n == 0 {
        S::zero_spec()
    } else {
        let front = live_total(opponents, reach, board, (n - 1) as nat);
        if counts(opponents[n - 1], reach[n - 1], board) {
            front.plus_spec(reach[n - 1])
        } else {
            front
        }
    }
}

/// The reach of the first `n` opponents that count and hold a card, once for each place they hold it in.
pub open spec fn card_total<S: Scalar>(
    opponents: Seq<ComboWeight<S>>,
    reach: Seq<S>,
    board: Seq<Card>,
    card: Card,
    n: nat,
) -> S
    decreases n,
{
    if n == 0 {
        S::zero_spec()
    } else {
        let front = card_total(opponents, reach, board, card, (n - 1) as nat);
        let opponent = opponents[n - 1];
        if counts(opponent, reach[n - 1], board) {
            let once = if opponent.first == card {
                front.plus_spec(reach[n - 1])
            } else {
                front
            };
            if opponent.second == card {
                once.plus_spec(reach[n - 1])
            } else {
                once
            }
        } else {
            front
        }
    }
}

/// The last of the first `n` opponents that is made of two cards.
pub open spec fn last_match<S>(
    opponents: Seq<ComboWeight<S>>,
    first: Card,
    second: Card,
    n: nat,
) -> Option<usize>
    decreases n,
{
    if n == 0 {
        None
    } else if made_of(opponents[n - 1], first, second) {
        Some((n - 1) as usize)
    } else {
        last_match(opponents, first, second, (n - 1) as nat)
    }
}

/// The reach of the opponent at a place, if there is one and it is off the board.
pub open spec fn same_reach<S: Scalar>(
    opponents: Seq<ComboWeight<S>>,
    reach: Seq<S>,
    board: Seq<Card>,
    same: Option<usize>,
) -> S {
    match same {
        Some(index) => if is_blocked(opponents[index as int], board) {
            S::zero_spec()
        } else {
            reach[index as int]
        },
        None => S::zero_spec(),
    }
}

/// The reach that a hand can be up against, by totals: all, less those that hold either card, and the
/// one that holds both back in.
pub open spec fn total_weight<S: Scalar>(
    own: ComboWeight<S>,
    opponents: Seq<ComboWeight<S>>,
    reach: Seq<S>,
    same: Option<usize>,
    board: Seq<Card>,
) -> S {
    let n = opponents.len();
    if is_blocked(own, board) {
        S::zero_spec()
    } else {
        live_total(opponents, reach, board, n).minus_spec(
            card_total(opponents, reach, board, own.first, n),
        ).minus_spec(card_total(opponents, reach, board, own.second, n)).plus_spec(
            same_reach(opponents, reach, board, same),
        )
    }
}

/// The reach that all hands can be up against, by totals.
pub open spec fn total_weights<S: Scalar>(
    own: Seq<ComboWeight<S>>,
    opponents: Seq<ComboWeight<S>>,
    reach: Seq<S>,
    same: Seq<Option<usize>>,
    board: Seq<Card>,
) -> Seq<S> {
    Seq::new(own.len(), |i: int| total_weight(own[i], opponents, reach, same[i], board))
}

/// Whether places of opponents are inside their list.
pub open spec fn are_places(same: Seq<Option<usize>>, count: nat) -> bool {
    forall|i: int| 0 <= i < same.len() ==> (#[trigger] same[i] matches Some(index) ==> index < count)
}

/// The totals of an opponent's reach.
pub struct ReachTotals<S> {
    pub total: S,
    pub by_card: Vec<S>,
}

/// Whether totals are those of the first `n` opponents.
pub open spec fn are_totals<S: Scalar>(
    totals: ReachTotals<S>,
    opponents: Seq<ComboWeight<S>>,
    reach: Seq<S>,
    board: Seq<Card>,
    n: nat,
) -> bool {
    &&& totals.by_card@.len() == 52
    &&& totals.total == live_total(opponents, reach, board, n)
    &&& forall|card: Card|
        totals.by_card@[#[trigger] card.id()] == card_total(opponents, reach, board, card, n)
}

/// One more opponent counted.
fn count_opponent<S: Scalar>(
    totals: &mut ReachTotals<S>,
    combo: &ComboWeight<S>,
    reach: S,
    Ghost(opponents): Ghost<Seq<ComboWeight<S>>>,
    Ghost(reaches): Ghost<Seq<S>>,
    Ghost(board): Ghost<Seq<Card>>,
    Ghost(n): Ghost<nat>,
)
    requires
        are_totals(*old(totals), opponents, reaches, board, n),
        n < opponents.len(),
        opponents[n as int] == *combo,
        reaches[n as int] == reach,
        counts(*combo, reach, board),
    ensures
        are_totals(*final(totals), opponents, reaches, board, n + 1),
{
    let ghost before = totals.by_card@;
    proof {
        card_position_round_trip(combo.first, 0);
        card_position_round_trip(combo.second, 0);
    }
    totals.total = totals.total.plus(reach);
    let first: usize = combo.first.index();
    let once: S = totals.by_card[first].plus(reach);
    totals.by_card.set(first, once);
    let second: usize = combo.second.index();
    let twice: S = totals.by_card[second].plus(reach);
    totals.by_card.set(second, twice);
    proof {
        assert forall|card: Card| totals.by_card@[#[trigger] card.id()] == card_total(
            opponents,
            reaches,
            board,
            card,
            n + 1,
        ) by {
            card_position_round_trip(card, 0);
            card_ids_differ(card, combo.first);
            card_ids_differ(card, combo.second);
            assert(before[card.id()] == card_total(opponents, reaches, board, card, n));
        }
    }
}

fn no_totals<S: Scalar>(
    Ghost(opponents): Ghost<Seq<ComboWeight<S>>>,
    Ghost(reaches): Ghost<Seq<S>>,
    Ghost(board): Ghost<Seq<Card>>,
) -> (r: ReachTotals<S>)
    ensures
        are_totals(r, opponents, reaches, board, 0),
{
    let totals = ReachTotals { total: S::zero(), by_card: zeros(52) };
    proof {
        assert forall|card: Card| totals.by_card@[#[trigger] card.id()] == card_total(
            opponents,
            reaches,
            board,
            card,
            0,
        ) by {
            card_position_round_trip(card, 0);
        }
    }
    totals
}

/// The reach that each hand can be up against, by totals.
pub fn opponent_weights_for_fast<S: Scalar>(
    own_combos: &[ComboWeight<S>],
    opponent_combos: &[ComboWeight<S>],
    opponent_reach: &[S],
    same_combo_indices: &[Option<usize>],
    board: &Board,
) -> (r: Vec<S>)
    requires
        board.wf(),
        opponent_combos@.len() == opponent_reach@.len(),
        own_combos@.len() == same_combo_indices@.len(),
        are_places(same_combo_indices@, opponent_combos@.len()),
    ensures
        r@ == total_weights(
            own_combos@,
            opponent_combos@,
            opponent_reach@,
            same_combo_indices@,
            board@,
        ),
{
    let mut totals: ReachTotals<S> = no_totals(
        Ghost(opponent_combos@),
        Ghost(opponent_reach@),
        Ghost(board@),
    );
    for j in 0..opponent_combos.len()
        invariant
            board.wf(),
            opponent_combos@.len() == opponent_reach@.len(),
            are_totals(totals, opponent_combos@, opponent_reach@, board@, j as nat),
    {
        let combo: &ComboWeight<S> = &opponent_combos[j];
        let reach: S = opponent_reach[j];
        if !reach.same(S::zero()) && !board.contains(combo.first) && !board.contains(combo.second) {
            count_opponent(
                &mut totals,
                combo,
                reach,
                Ghost(opponent_combos@),
                Ghost(opponent_reach@),
                Ghost(board@),
                Ghost(j as nat),
            );
        }
    }
    let mut out: Vec<S> = Vec::new();
    for i in 0..own_combos.len()
        invariant
            board.wf(),
            opponent_combos@.len() == opponent_reach@.len(),
            own_combos@.len() == same_combo_indices@.len(),
            are_places(same_combo_indices@, opponent_combos@.len()),
            are_totals(
                totals,
                opponent_combos@,
                opponent_reach@,
                board@,
                opponent_combos@.len(),
            ),
            out@.len() == i,
            forall|k: int|
                0 <= k < i ==> #[trigger] out@[k] == total_weight(
                    own_combos@[k],
                    opponent_combos@,
                    opponent_reach@,
                    same_combo_indices@[k],
                    board@,
                ),
    {
        let own: &ComboWeight<S> = &own_combos[i];
        if board.contains(own.first) || board.contains(own.second) {
            out.push(S::zero());
        } else {
            let back: S = match same_combo_indices[i] {
                Some(index) => {
                    let opponent: &ComboWeight<S> = &opponent_combos[index];
                    if board.contains(opponent.first) || board.contains(opponent.second) {
                        S::zero()
                    } else {
                        opponent_reach[index]
                    }
                },
                None => S::zero(),
            };
            proof {
                card_position_round_trip(own.first, 0);
                card_position_round_trip(own.second, 0);
            }
            out.push(
                totals.total.minus(totals.by_card[own.first.index()]).minus(
                    totals.by_card[own.second.index()],
                ).plus(back),
            );
        }
    }
    proof {
        assert(out@ =~= total_weights(
            own_combos@,
            opponent_combos@,
            opponent_reach@,
            same_combo_indices@,
            board@,
        ));
    }
    out
}

/// For each hand, the place of the opponent's hand of the same cards.
pub open spec fn same_places<S>(own: Seq<ComboWeight<S>>, opponents: Seq<ComboWeight<S>>) -> Seq<
    Option<usize>,
> {
    Seq::new(
        own.len(),
        |i: int| last_match(opponents, own[i].first, own[i].second, opponents.len()),
    )
}

/// Places of matching hands are inside the list.
pub proof fn last_match_facts<S>(opponents: Seq<ComboWeight<S>>, first: Card, second: Card, n: nat)
    requires
        n <= opponents.len() <= usize::MAX,
    ensures
        match last_match(opponents, first, second, n) {
            Some(index) => index < n && made_of(opponents[index as int], first, second),
            None => forall|j: int| 0 <= j < n ==> !made_of(#[trigger] opponents[j], first, second),
        },
    decreases n,
{
    if n > 0 {
        last_match_facts(opponents, first, second, (n - 1) as nat);
    }
}

/// For each hand, the place of the opponent's hand of the same cards.
pub fn same_combo_indices<S: Scalar>(
    own_combos: &[ComboWeight<S>],
    opponent_combos: &[ComboWeight<S>],
) -> (r: Vec<Option<usize>>)
    requires
        forall|i: int|
            0 <= i < own_combos@.len() ==> (#[trigger] own_combos@[i]).first != own_combos@[i].second,
    ensures
        r@ == same_places(own_combos@, opponent_combos@),
        are_places(r@, opponent_combos@.len()),
{
    let mut by_key: KeyMap<usize> = KeyMap::new();
    let count: usize = opponent_combos.len();
    for j in 0..count
        invariant
            count == opponent_combos@.len(),
            forall|a: Card, b: Card|
                a != b ==> match last_match(opponent_combos@, a, b, j as nat) {
                    Some(index) => by_key@.contains_key(#[trigger] (a.bit() | b.bit()))
                        && by_key@[a.bit() | b.bit()] == index,
                    None => !by_key@.contains_key(a.bit() | b.bit()),
                },
    {
        let ghost before = by_key@;
        let combo: &ComboWeight<S> = &opponent_combos[j];
        let key: u64 = private_combo_key(combo.first, combo.second);
        by_key.insert(key, j);
        proof {
            assert forall|a: Card, b: Card|
                a != b implies match last_match(opponent_combos@, a, b, (j + 1) as nat) {
                Some(index) => by_key@.contains_key(#[trigger] (a.bit() | b.bit()))
                    && by_key@[a.bit() | b.bit()] == index,
                None => !by_key@.contains_key(a.bit() | b.bit()),
            } by {
                let k = a.bit() | b.bit();
                if k == key {
                    lemma_pair_key(combo.first, combo.second, a, b);
                }
                if made_of(*combo, a, b) {
                    let x = combo.first.bit();
                    let y = combo.second.bit();
                    assert(x | y == y | x) by (bit_vector);
                }
            }
        }
    }
    let mut out: Vec<Option<usize>> = Vec::new();
    for i in 0..own_combos.len()
        invariant
            count == opponent_combos@.len(),
            forall|k: int|
                0 <= k < own_combos@.len() ==> (#[trigger] own_combos@[k]).first
                    != own_combos@[k].second,
            forall|a: Card, b: Card|
                a != b ==> match last_match(opponent_combos@, a, b, count as nat) {
                    Some(index) => by_key@.contains_key(#[trigger] (a.bit() | b.bit()))
                        && by_key@[a.bit() | b.bit()] == index,
                    None => !by_key@.contains_key(a.bit() | b.bit()),
                },
            out@ =~= same_places(own_combos@, opponent_combos@).take(i as int),
            are_places(out@, opponent_combos@.len()),
    {
        let combo: &ComboWeight<S> = &own_combos[i];
        let key: u64 = private_combo_key(combo.first, combo.second);
        let found: Option<usize> = match by_key.get(key) {
            Some(index) => Some(*index),
            None => None,
        };
        proof {
            assert(own_combos@[i as int].first != own_combos@[i as int].second);
            last_match_facts(opponent_combos@, combo.first, combo.second, count as nat);
        }
        out.push(found);
    }
    proof {
        assert(same_places(own_combos@, opponent_combos@).take(own_combos@.len() as int)
            =~= same_places(own_combos@, opponent_combos@));
    }
    out
}

/// A hand off a board: its place in its range and its cards.
#[derive(Clone, Copy, Debug)]
pub struct PreparedLiveTarget {
    pub range_index: u16,
    pub first_card: u8,
    pub second_card: u8,
}

/// The hands of the first `n` that are off a board.
pub open spec fn live_targets<S>(combos: Seq<ComboWeight<S>>, board: Seq<Card>, n: nat) -> Seq<
    PreparedLiveTarget,
>
    decreases n,
{
    if n == 0 {
        Seq::empty()
    } else {
        let front = live_targets(combos, board, (n - 1) as nat);
        let combo = combos[n - 1];
        if is_blocked(combo, board) {
            front
        } else {
            front.push(
                PreparedLiveTarget {
                    range_index: (n - 1) as u16,
                    first_card: combo.first.id() as u8,
                    second_card: combo.second.id() as u8,
                },
            )
        }
    }
}

/// The hands that are off a board.
pub fn live_combo_targets<S: Scalar>(combos: &[ComboWeight<S>], board: &Board) -> (r: Vec<
    PreparedLiveTarget,
>)
    requires
        board.wf(),
        combos@.len() <= 65536,
    ensures
        r@ == live_targets(combos@, board@, combos@.len()),
{
    let mut targets: Vec<PreparedLiveTarget> = Vec::new();
    for i in 0..combos.len()
        invariant
            board.wf(),
            combos@.len() <= 65536,
            targets@ == live_targets(combos@, board@, i as nat),
    {
        let combo: &ComboWeight<S> = &combos[i];
        if !board.contains(combo.first) && !board.contains(combo.second) {
            proof {
                card_position_round_trip(combo.first, 0);
                card_position_round_trip(combo.second, 0);
            }
            targets.push(
                PreparedLiveTarget {
                    range_index: i as u16,
                    first_card: combo.first.index() as u8,
                    second_card: combo.second.index() as u8,
                },
            );
        }
    }
    targets
}

/// The places of the hands of the first `n` that are off a board.
pub open spec fn live_indices<S>(combos: Seq<ComboWeight<S>>, board: Seq<Card>, n: nat) -> Seq<usize>
    decreases n,
{
    if n == 0 {
        Seq::empty()
    } else {
        let front = live_indices(combos, board, (n - 1) as nat);
        if is_blocked(combos[n - 1], board) {
            front
        } else {
            front.push((n - 1) as usize)
        }
    }
}

/// The places of the hands that are off a board.
pub fn live_combo_indices<S: Scalar>(combos: &[ComboWeight<S>], board: &Board) -> (r: Vec<usize>)
    requires
        board.wf(),
    ensures
        r@ == live_indices(combos@, board@, combos@.len()),
        forall|k: int| 0 <= k < r@.len() ==> #[trigger] r@[k] < combos@.len(),
{
    let mut list: Vec<usize> = Vec::new();
    for i in 0..combos.len()
        invariant
            board.wf(),
            list@ == live_indices(combos@, board@, i as nat),
            forall|k: int| 0 <= k < list@.len() ==> #[trigger] list@[k] < i,
    {
        let combo: &ComboWeight<S> = &combos[i];
        if !board.contains(combo.first) && !board.contains(combo.second) {
            list.push(i);
        }
    }
    list
}

/// The live targets of the first `n` hands name the hands off the board, in order.
proof fn lemma_live_targets<S>(combos: Seq<ComboWeight<S>>, board: Seq<Card>, n: nat)
    requires
        n <= combos.len() <= 65536,
    ensures
        forall|k: int|
            0 <= k < live_targets(combos, board, n).len() ==> {
                let target = #[trigger] live_targets(combos, board, n)[k];
                &&& target.range_index < n
                &&& !is_blocked(combos[target.range_index as int], board)
                &&& target.first_card == combos[target.range_index as int].first.id()
                &&& target.second_card == combos[target.range_index as int].second.id()
            },
    decreases n,
{
    if n > 0 {
        lemma_live_targets(combos, board, (n - 1) as nat);
        card_position_round_trip(combos[n - 1].first, 0);
        card_position_round_trip(combos[n - 1].second, 0);
        let front = live_targets(combos, board, (n - 1) as nat);
        let whole = live_targets(combos, board, n);
        assert forall|k: int| 0 <= k < whole.len() implies {
            let target = #[trigger] whole[k];
            &&& target.range_index < n
            &&& !is_blocked(combos[target.range_index as int], board)
            &&& target.first_card == combos[target.range_index as int].first.id()
            &&& target.second_card == combos[target.range_index as int].second.id()
        } by {
            if k < front.len() {
                assert(whole[k] == front[k]);
            }
        }
    }
}

/// The reach that all hands can be up against, by totals and scaled.
pub open spec fn scaled_weights<S: Scalar>(
    own: Seq<ComboWeight<S>>,
    opponents: Seq<ComboWeight<S>>,
    reach: Seq<S>,
    board: Seq<Card>,
    scale: S,
) -> Seq<S> {
    Seq::new(
        own.len(),
        |i: int|
            if is_blocked(own[i], board) {
                S::zero_spec()
            } else {
                total_weight(own[i], opponents, reach, same_places(own, opponents)[i], board).times_spec(
                    scale,
                )
            },
    )
}

/// The reach that each hand off the board can be up against, scaled; zero for the hands on it.
pub fn opponent_weights_for_live<S: Scalar>(
    opponent_reach: &[S],
    same_combo_indices: &[Option<usize>],
    own_live_targets: &[PreparedLiveTarget],
    opponent_live_targets: &[PreparedLiveTarget],
    scale: S,
    own_combos: &[ComboWeight<S>],
    opponent_combos: &[ComboWeight<S>],
    board: &Board,
) -> (r: Vec<S>)
    requires
        own_combos@.len() <= 65536,
        opponent_combos@.len() <= 65536,
        opponent_combos@.len() == opponent_reach@.len(),
        same_combo_indices@ == same_places(own_combos@, opponent_combos@),
        own_live_targets@ == live_targets(own_combos@, board@, own_combos@.len()),
        opponent_live_targets@ == live_targets(opponent_combos@, board@, opponent_combos@.len()),
    ensures
        r@ == scaled_weights(own_combos@, opponent_combos@, opponent_reach@, board@, scale),
{
    let ghost opponents = opponent_combos@;
    let ghost reaches = opponent_reach@;
    let ghost own = own_combos@;
    let ghost cards = board@;
    let mut totals: ReachTotals<S> = no_totals(Ghost(opponents), Ghost(reaches), Ghost(cards));
    let ghost mut done: nat = 0;
    proof {
        lemma_live_targets(opponents, cards, opponents.len());
        lemma_live_targets(own, cards, own.len());
    }
    for k in 0..opponent_live_targets.len()
        invariant
            opponents == opponent_combos@,
            reaches == opponent_reach@,
            cards == board@,
            opponents.len() == reaches.len(),
            opponents.len() <= 65536,
            opponent_live_targets@ == live_targets(opponents, cards, opponents.len()),
            done <= opponents.len(),
            live_targets(opponents, cards, done) == opponent_live_targets@.take(k as int),
            are_totals(totals, opponents, reaches, cards, done),
            forall|j: int|
                0 <= j < opponent_live_targets@.len() ==> {
                    let target = #[trigger] opponent_live_targets@[j];
                    &&& target.range_index < opponents.len()
                    &&& !is_blocked(opponents[target.range_index as int], cards)
                    &&& target.first_card == opponents[target.range_index as int].first.id()
                    &&& target.second_card == opponents[target.range_index as int].second.id()
                },
    {
        let target: PreparedLiveTarget = opponent_live_targets[k];
        let index: usize = target.range_index as usize;
        proof {
            let (at, skipped) = lemma_next_live(opponents, reaches, cards, done, k as nat, totals);
            assert(at == index);
            done = at;
            assert(skipped);
        }
        let reach: S = opponent_reach[index];
        if !reach.same(S::zero()) {
            count_opponent(
                &mut totals,
                &opponent_combos[index],
                reach,
                Ghost(opponents),
                Ghost(reaches),
                Ghost(cards),
                Ghost(done),
            );
        }
        proof {
            done = done + 1;
            assert(opponent_live_targets@.take(k + 1) =~= opponent_live_targets@.take(
                k as int,
            ).push(target));
        }
    }
    proof {
        lemma_rest_dead(opponents, reaches, cards, done, totals);
    }
    let mut out: Vec<S> = zeros(own_combos.len());
    let ghost goal = scaled_weights(own, opponents, reaches, cards, scale);
    let ghost mut set: nat = 0;
    for k in 0..own_live_targets.len()
        invariant
            own == own_combos@,
            opponents == opponent_combos@,
            reaches == opponent_reach@,
            cards == board@,
            own.len() <= 65536,
            opponents.len() == reaches.len(),
            opponents.len() <= 65536,
            same_combo_indices@ == same_places(own, opponents),
            goal == scaled_weights(own, opponents, reaches, cards, scale),
            own_live_targets@ == live_targets(own, cards, own.len()),
            are_totals(totals, opponents, reaches, cards, opponents.len()),
            set <= own.len(),
            live_targets(own, cards, set) == own_live_targets@.take(k as int),
            out@.len() == own.len(),
            forall|i: int| 0 <= i < set ==> #[trigger] out@[i] == goal[i],
            forall|i: int| set <= i < own.len() ==> #[trigger] out@[i] == S::zero_spec(),
            forall|j: int|
                0 <= j < own_live_targets@.len() ==> {
                    let target = #[trigger] own_live_targets@[j];
                    &&& target.range_index < own.len()
                    &&& !is_blocked(own[target.range_index as int], cards)
                    &&& target.first_card == own[target.range_index as int].first.id()
                    &&& target.second_card == own[target.range_index as int].second.id()
                },
    {
        let target: PreparedLiveTarget = own_live_targets[k];
        let index: usize = target.range_index as usize;
        proof {
            let at = lemma_next_own(own, cards, set, k as nat);
            assert(at == index);
            set = at;
            last_match_facts(opponents, own[at as int].first, own[at as int].second, opponents.len());
            card_position_round_trip(own[at as int].first, 0);
            card_position_round_trip(own[at as int].second, 0);
        }
        let back: S = match same_combo_indices[index] {
            Some(other) => opponent_reach[other],
            None => S::zero(),
        };
        let weight: S = totals.total.minus(totals.by_card[target.first_card as usize]).minus(
            totals.by_card[target.second_card as usize],
        ).plus(back).times(scale);
        out.set(index, weight);
        proof {
            set = set + 1;
            assert(own_live_targets@.take(k + 1) =~= own_live_targets@.take(k as int).push(target));
        }
    }
    proof {
        lemma_all_own(own, cards, set);
        assert(out@ =~= goal);
    }
    out
}

/// The next live target is the next hand off the board; the hands before it do not count.
proof fn lemma_next_live<S: Scalar>(
    combos: Seq<ComboWeight<S>>,
    reach: Seq<S>,
    board: Seq<Card>,
    n: nat,
    k: nat,
    totals: ReachTotals<S>,
) -> (r: (nat, bool))
    requires
        n <= combos.len() <= 65536,
        k < live_targets(combos, board, combos.len()).len(),
        live_targets(combos, board, n) == live_targets(combos, board, combos.len()).take(k as int),
        are_totals(totals, combos, reach, board, n),
    ensures
        n <= r.0 < combos.len(),
        r.0 == live_targets(combos, board, combos.len())[k as int].range_index,
        live_targets(combos, board, r.0) == live_targets(combos, board, n),
        live_targets(combos, board, r.0 + 1) == live_targets(combos, board, n).push(
            live_targets(combos, board, combos.len())[k as int],
        ),
        are_totals(totals, combos, reach, board, r.0),
        r.1,
    decreases combos.len() - n,
{
    if n == combos.len() {
        assert(live_targets(combos, board, n).len() == k);
    }
    if is_blocked(combos[n as int], board) {
        assert(live_targets(combos, board, n + 1) == live_targets(combos, board, n));
        assert forall|card: Card| totals.by_card@[#[trigger] card.id()] == card_total(
            combos,
            reach,
            board,
            card,
            n + 1,
        ) by {}
        lemma_next_live(combos, reach, board, n + 1, k, totals)
    } else {
        lemma_prefix(combos, board, n + 1, combos.len());
        let whole = live_targets(combos, board, combos.len());
        let step = live_targets(combos, board, n + 1);
        assert(whole.take(step.len() as int) == step);
        assert(whole[k as int] == whole.take(step.len() as int)[k as int]);
        (n, true)
    }
}

/// The next live target is the next hand off the board.
proof fn lemma_next_own<S>(combos: Seq<ComboWeight<S>>, board: Seq<Card>, n: nat, k: nat) -> (r: nat)
    requires
        n <= combos.len() <= 65536,
        k < live_targets(combos, board, combos.len()).len(),
        live_targets(combos, board, n) == live_targets(combos, board, combos.len()).take(k as int),
    ensures
        n <= r < combos.len(),
        r == live_targets(combos, board, combos.len())[k as int].range_index,
        forall|i: int| n <= i < r ==> is_blocked(#[trigger] combos[i], board),
        live_targets(combos, board, r + 1) == live_targets(combos, board, n).push(
            live_targets(combos, board, combos.len())[k as int],
        ),
    decreases combos.len() - n,
{
    if n == combos.len() {
        assert(live_targets(combos, board, n).len() == k);
    }
    if is_blocked(combos[n as int], board) {
        assert(live_targets(combos, board, n + 1) == live_targets(combos, board, n));
        lemma_next_own(combos, board, n + 1, k)
    } else {
        lemma_prefix(combos, board, n + 1, combos.len());
        let whole = live_targets(combos, board, combos.len());
        let step = live_targets(combos, board, n + 1);
        assert(whole.take(step.len() as int) == step);
        assert(whole[k as int] == whole.take(step.len() as int)[k as int]);
        n
    }
}

/// The live targets of fewer hands are the first of those of more.
proof fn lemma_prefix<S>(combos: Seq<ComboWeight<S>>, board: Seq<Card>, n: nat, m: nat)
    requires
        n <= m,
    ensures
        live_targets(combos, board, n).len() <= live_targets(combos, board, m).len(),
        live_targets(combos, board, m).take(live_targets(combos, board, n).len() as int)
            == live_targets(combos, board, n),
    decreases m,
{
    let short = live_targets(combos, board, n);
    let long = live_targets(combos, board, m);
    if n < m {
        lemma_prefix(combos, board, n, (m - 1) as nat);
        let inner = live_targets(combos, board, (m - 1) as nat);
        assert(long.take(short.len() as int) =~= inner.take(short.len() as int));
    } else {
        assert(long.take(short.len() as int) =~= short);
    }
}

/// Behind the last live target nothing counts.
proof fn lemma_rest_dead<S: Scalar>(
    combos: Seq<ComboWeight<S>>,
    reach: Seq<S>,
    board: Seq<Card>,
    n: nat,
    totals: ReachTotals<S>,
)
    requires
        n <= combos.len(),
        live_targets(combos, board, n).len() == live_targets(combos, board, combos.len()).len(),
        are_totals(totals, combos, reach, board, n),
    ensures
        are_totals(totals, combos, reach, board, combos.len()),
    decreases combos.len() - n,
{
    if n < combos.len() {
        lemma_prefix(combos, board, n + 1, combos.len());
        assert(is_blocked(combos[n as int], board));
        assert forall|card: Card| totals.by_card@[#[trigger] card.id()] == card_total(
            combos,
            reach,
            board,
            card,
            n + 1,
        ) by {}
        lemma_rest_dead(combos, reach, board, n + 1, totals);
    }
}

/// Behind the last live target all hands are on the board.
proof fn lemma_all_own<S>(combos: Seq<ComboWeight<S>>, board: Seq<Card>, n: nat)
    requires
        n <= combos.len(),
        live_targets(combos, board, n).len() == live_targets(combos, board, combos.len()).len(),
    ensures
        forall|i: int| n <= i < combos.len() ==> is_blocked(#[trigger] combos[i], board),
    decreases combos.len() - n,
{
    if n < combos.len() {
        lemma_prefix(combos, board, n + 1, combos.len());
        lemma_all_own(combos, board, n + 1);
    }
}

/// The reach of the first `n` opponents that count and are made of two cards.
spec fn both_total<S: Scalar>(
    own: ComboWeight<S>,
    opponents: Seq<ComboWeight<S>>,
    reach: Seq<S>,
    board: Seq<Card>,
    n: nat,
) -> S
    decreases n,
{
    if n == 0 {
        S::zero_spec()
    } else {
        let front = both_total(own, opponents, reach, board, (n - 1) as nat);
        if counts(opponents[n - 1], reach[n - 1], board) && made_of(
            opponents[n - 1],
            own.first,
            own.second,
        ) {
            front.plus_spec(reach[n - 1])
        } else {
            front
        }
    }
}

/// `(a + r) - c == (a - c) + r`.
proof fn lemma_plus_minus<S: ExactScalar>(a: S, r: S, c: S)
    ensures
        a.plus_spec(r).minus_spec(c) == a.minus_spec(c).plus_spec(r),
{
    S::minus_is_plus_negation(a.plus_spec(r), c);
    S::minus_is_plus_negation(a, c);
    S::plus_associates(a, r, c.negate_spec());
    S::plus_commutes(r, c.negate_spec());
    S::plus_associates(a, c.negate_spec(), r);
}

/// `(a + r) - (c + r) == a - c`.
proof fn lemma_both_plus<S: ExactScalar>(a: S, r: S, c: S)
    ensures
        a.plus_spec(r).minus_spec(c.plus_spec(r)) == a.minus_spec(c),
{
    crate::sums::negate_plus(c, r);
    S::minus_is_plus_negation(a.plus_spec(r), c.plus_spec(r));
    S::minus_is_plus_negation(a, c);
    crate::sums::plus_swap(a, r, c.negate_spec(), r.negate_spec());
    S::plus_negation(r);
    S::plus_zero(a.plus_spec(c.negate_spec()));
}

/// `(x - (c + r)) + (b + r) == (x - c) + b`.
proof fn lemma_minus_plus<S: ExactScalar>(x: S, c: S, r: S, b: S)
    ensures
        x.minus_spec(c.plus_spec(r)).plus_spec(b.plus_spec(r)) == x.minus_spec(c).plus_spec(b),
{
    S::minus_is_plus_negation(x, c.plus_spec(r));
    S::minus_is_plus_negation(x, c);
    crate::sums::negate_plus(c, r);
    let n = c.negate_spec();
    let m = r.negate_spec();
    S::plus_associates(x, n, m);
    crate::sums::plus_swap(x.plus_spec(n), m, b, r);
    S::plus_commutes(m, r);
    S::plus_negation(r);
    S::plus_zero(x.plus_spec(n).plus_spec(b));
}

/// The reach of each opponent that a hand can be up against.
pub open spec fn met_part<S: Scalar>(
    own: ComboWeight<S>,
    opponents: Seq<ComboWeight<S>>,
    reach: Seq<S>,
    board: Seq<Card>,
) -> spec_fn(int) -> S {
    |j: int|
        if is_blocked(opponents[j], board) || collide(own, opponents[j]) {
            S::zero_spec()
        } else {
            reach[j]
        }
}

proof fn lemma_totals<S: ExactScalar>(
    own: ComboWeight<S>,
    opponents: Seq<ComboWeight<S>>,
    reach: Seq<S>,
    board: Seq<Card>,
    n: nat,
)
    requires
        n <= opponents.len() == reach.len(),
        own.first != own.second,
        forall|j: int| 0 <= j < opponents.len() ==> (#[trigger] opponents[j]).first != opponents[j].second,
    ensures
        live_total(opponents, reach, board, n).minus_spec(
            card_total(opponents, reach, board, own.first, n),
        ).minus_spec(card_total(opponents, reach, board, own.second, n)).plus_spec(
            both_total(own, opponents, reach, board, n),
        ) == sum_below(met_part(own, opponents, reach, board), n),
    decreases n,
{
    if n == 0 {
        let zero = S::zero_spec();
        S::minus_is_plus_negation(zero, zero);
        S::plus_negation(zero);
        S::plus_zero(zero);
    } else {
        let m = (n - 1) as nat;
        lemma_totals(own, opponents, reach, board, m);
        let opponent = opponents[n - 1];
        let r = reach[n - 1];
        S::same_is_equality(r, S::zero_spec());
        S::plus_zero(sum_below(met_part(own, opponents, reach, board), m));
        if counts(opponent, r, board) {
            let t = live_total(opponents, reach, board, m);
            let c = card_total(opponents, reach, board, own.first, m);
            let d = card_total(opponents, reach, board, own.second, m);
            let b = both_total(own, opponents, reach, board, m);
            let holds_first = opponent.first == own.first || opponent.second == own.first;
            let holds_second = opponent.first == own.second || opponent.second == own.second;
            if holds_first && holds_second {
                lemma_both_plus(t, r, c);
                lemma_minus_plus(t.minus_spec(c), d, r, b);
            } else if holds_first {
                lemma_both_plus(t, r, c);
            } else if holds_second {
                lemma_plus_minus(t, r, c);
                lemma_both_plus(t.minus_spec(c), r, d);
            } else {
                lemma_plus_minus(t, r, c);
                lemma_plus_minus(t.minus_spec(c), r, d);
                let x = t.minus_spec(c).minus_spec(d);
                S::plus_associates(x, r, b);
                S::plus_commutes(r, b);
                S::plus_associates(x, b, r);
            }
        }
    }
}

proof fn lemma_pair_weight<S: ExactScalar>(
    own: ComboWeight<S>,
    opponents: Seq<ComboWeight<S>>,
    reach: Seq<S>,
    board: Seq<Card>,
    n: nat,
)
    requires
        n <= opponents.len() == reach.len(),
        forall|j: int|
            0 <= j < reach.len() ==> (#[trigger] reach[j]).exceeds_spec(S::zero_spec()) != reach[j].same_spec(
                S::zero_spec(),
            ),
    ensures
        pair_weight(own, opponents, reach, board, n) == sum_below(
            met_part(own, opponents, reach, board),
            n,
        ),
    decreases n,
{
    if n > 0 {
        lemma_pair_weight(own, opponents, reach, board, (n - 1) as nat);
        S::same_is_equality(reach[n - 1], S::zero_spec());
        S::plus_zero(sum_below(met_part(own, opponents, reach, board), (n - 1) as nat));
    }
}

proof fn lemma_both<S: ExactScalar>(
    own: ComboWeight<S>,
    opponents: Seq<ComboWeight<S>>,
    reach: Seq<S>,
    board: Seq<Card>,
    n: nat,
)
    requires
        n <= opponents.len() == reach.len(),
        opponents.len() <= usize::MAX,
        are_unlike(opponents),
    ensures
        both_total(own, opponents, reach, board, n) == same_reach(
            opponents,
            reach,
            board,
            last_match(opponents, own.first, own.second, n),
        ),
    decreases n,
{
    if n > 0 {
        let m = (n - 1) as nat;
        lemma_both(own, opponents, reach, board, m);
        last_match_facts(opponents, own.first, own.second, m);
        if made_of(opponents[n - 1], own.first, own.second) {
            if let Some(index) = last_match(opponents, own.first, own.second, m) {
                assert(!made_of(
                    opponents[index as int],
                    opponents[n - 1].first,
                    opponents[n - 1].second,
                ));
            }
            let r = reach[n - 1];
            S::same_is_equality(r, S::zero_spec());
            S::plus_commutes(S::zero_spec(), r);
            S::plus_zero(r);
        }
    }
}

/// Whether no two combos are made of the same cards.
pub open spec fn are_unlike<S>(combos: Seq<ComboWeight<S>>) -> bool {
    forall|i: int, j: int|
        0 <= i < j < combos.len() ==> !made_of(
            #[trigger] combos[i],
            (#[trigger] combos[j]).first,
            combos[j].second,
        )
}

/// Weighing by totals adds up the reach of the opponents that a hand can be up against, if no opponent
/// stands there twice.
pub proof fn total_weights_add_up<S: ExactScalar>(
    own: ComboWeight<S>,
    opponents: Seq<ComboWeight<S>>,
    reach: Seq<S>,
    board: Seq<Card>,
)
    requires
        opponents.len() == reach.len(),
        opponents.len() <= usize::MAX,
        own.first != own.second,
        !is_blocked(own, board),
        forall|j: int| 0 <= j < opponents.len() ==> (#[trigger] opponents[j]).first != opponents[j].second,
        are_unlike(opponents),
    ensures
        total_weight(
            own,
            opponents,
            reach,
            last_match(opponents, own.first, own.second, opponents.len()),
            board,
        ) == sum_below(met_part(own, opponents, reach, board), opponents.len()),
{
    lemma_totals(own, opponents, reach, board, opponents.len());
    lemma_both(own, opponents, reach, board, opponents.len());
}

/// Weighing by totals gives what weighing pair by pair gives, for reaches that are not negative and an
/// opponent whose hands are all different, over every number type whose sums do not depend on the order.
pub proof fn fast_weights_match_pairwise<S: ExactScalar>(
    own: ComboWeight<S>,
    opponents: Seq<ComboWeight<S>>,
    reach: Seq<S>,
    board: Seq<Card>,
)
    requires
        opponents.len() == reach.len(),
        opponents.len() <= usize::MAX,
        own.first != own.second,
        !is_blocked(own, board),
        forall|j: int| 0 <= j < opponents.len() ==> (#[trigger] opponents[j]).first != opponents[j].second,
        are_unlike(opponents),
        forall|j: int|
            0 <= j < reach.len() ==> (#[trigger] reach[j]).exceeds_spec(S::zero_spec()) != reach[j].same_spec(
                S::zero_spec(),
            ),
    ensures
        total_weight(
            own,
            opponents,
            reach,
            last_match(opponents, own.first, own.second, opponents.len()),
            board,
        ) == pair_weight(own, opponents, reach, board, opponents.len()),
{
    total_weights_add_up(own, opponents, reach, board);
    lemma_pair_weight(own, opponents, reach, board, opponents.len());
}

} // verus!
