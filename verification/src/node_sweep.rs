//! Values of a range's hands on a finished board in two sweeps over hands sorted by strength.
//!
//! One sweep goes up and adds what a hand wins from the weaker ones, one goes down and takes what it
//! loses to the stronger ones. Hands that share a card with the hero's are left out by sums for each card.
use vstd::prelude::*;
use crate::cards::card_position_round_trip;
use crate::cfr_math::{zeros, zeros_spec};
use crate::scalar::Scalar;
use crate::sorting::{comes_before, is_sorting, sorted_positions, SortKey};
use crate::terminal_board::PreparedTerminalBoard;
use crate::terminal_cache::PreparedComboTarget;

verus! {

/// A hand on a finished board: how strong it is, its place in its range, and its cards.
#[derive(Clone, Copy, Debug, PartialEq, Eq, Structural)]
pub struct SweepTarget {
    pub strength: u64,
    pub range_index: usize,
    pub first_card: usize,
    pub second_card: usize,
}

/// A hand on a river in few bytes.
#[derive(Clone, Copy, Debug, PartialEq, Eq, Structural)]
pub struct PreparedRiverTarget {
    pub strength: u64,
    pub range_index: u16,
    pub first_card: u8,
    pub second_card: u8,
}

impl PreparedRiverTarget {
    /// The hand.
    pub open spec fn swept(self) -> SweepTarget {
        SweepTarget {
            strength: self.strength,
            range_index: self.range_index as usize,
            first_card: self.first_card as usize,
            second_card: self.second_card as usize,
        }
    }
}

/// The hand of a target on a board.
pub open spec fn target_swept(prepared: PreparedTerminalBoard, target: PreparedComboTarget) -> SweepTarget {
    let combo = prepared.combos_spec()[target.board_index as int];
    SweepTarget {
        strength: prepared.strengths_spec()[target.board_index as int],
        range_index: target.range_index,
        first_card: combo.first.id() as usize,
        second_card: combo.second.id() as usize,
    }
}

/// The hands of targets on a board.
pub open spec fn targets_swept(prepared: PreparedTerminalBoard, targets: Seq<PreparedComboTarget>) -> Seq<
    SweepTarget,
> {
    Seq::new(targets.len(), |i: int| target_swept(prepared, targets[i]))
}

/// The hands of targets on a river.
pub open spec fn rivers_swept(targets: Seq<PreparedRiverTarget>) -> Seq<SweepTarget> {
    Seq::new(targets.len(), |i: int| targets[i].swept())
}

/// Whether hands stand from the weakest to the strongest.
pub open spec fn are_rising(targets: Seq<SweepTarget>) -> bool {
    forall|i: int, j: int|
        0 <= i < j < targets.len() ==> #[trigger] targets[i].strength <= #[trigger] targets[j].strength
}

/// Whether hands are of a range of so many and their cards of the deck.
pub open spec fn are_hands(targets: Seq<SweepTarget>, count: nat) -> bool {
    forall|i: int|
        0 <= i < targets.len() ==> (#[trigger] targets[i]).range_index < count && targets[i].first_card
            < 52 && targets[i].second_card < 52
}

/// The reach of hands: of all, and of those that hold each card.
pub ghost struct CardSums<S> {
    pub total: S,
    pub cards: Seq<S>,
}

/// The reach of no hands.
pub open spec fn no_card_sums<S: Scalar>() -> CardSums<S> {
    CardSums { total: S::zero_spec(), cards: zeros_spec::<S>(52) }
}

/// The reach of hands and of one more. A hand that is never held counts for nothing.
pub open spec fn with_target<S: Scalar>(sums: CardSums<S>, target: SweepTarget, reach: Seq<S>) -> CardSums<S> {
    let value = reach[target.range_index as int];
    if value.same_spec(S::zero_spec()) {
        sums
    } else {
        let (first, second) = (target.first_card as int, target.second_card as int);
        let held = sums.cards.update(first, sums.cards[first].plus_spec(value));
        CardSums {
            total: sums.total.plus_spec(value),
            cards: held.update(second, held[second].plus_spec(value)),
        }
    }
}

/// The `k`-th hand that a sweep meets.
pub open spec fn met(targets: Seq<SweepTarget>, down: bool, k: int) -> SweepTarget {
    if down {
        targets[targets.len() - 1 - k]
    } else {
        targets[k]
    }
}

/// The reach of the first `n` hands that a sweep meets.
pub open spec fn sums_met<S: Scalar>(targets: Seq<SweepTarget>, reach: Seq<S>, down: bool, n: nat) -> CardSums<S>
    decreases n,
{
    if n == 0 {
        no_card_sums()
    } else {
        with_target(sums_met(targets, reach, down, (n - 1) as nat), met(targets, down, n - 1), reach)
    }
}

/// Whether a hand is beaten by another, or beats it in a sweep down.
pub open spec fn is_passed(down: bool, strength: u64, own: u64) -> bool {
    if down {
        strength > own
    } else {
        strength < own
    }
}

/// How many of the first `n` hands that a sweep meets are weaker, or stronger in a sweep down.
pub open spec fn passed(targets: Seq<SweepTarget>, down: bool, own: u64, n: nat) -> nat
    decreases n,
{
    if n == 0 {
        0
    } else {
        passed(targets, down, own, (n - 1) as nat) + (if is_passed(
            down,
            met(targets, down, n - 1).strength,
            own,
        ) {
            1nat
        } else {
            0
        })
    }
}

/// The reach of hands without those that hold a card of a hand.
pub open spec fn not_blocked<S: Scalar>(sums: CardSums<S>, own: SweepTarget) -> S {
    sums.total.minus_spec(sums.cards[own.first_card as int]).minus_spec(
        sums.cards[own.second_card as int],
    )
}

/// Values after a sweep met the first `n` of the own hands: each gets the pot times the reach of the
/// weaker hands it can be up against, or gives the pot times that of the stronger ones.
pub open spec fn sweep_spec<S: Scalar>(
    opponents: Seq<SweepTarget>,
    reach: Seq<S>,
    own: Seq<SweepTarget>,
    down: bool,
    pot: S,
    out: Seq<S>,
    n: nat,
) -> Seq<S>
    decreases n,
{
    if n == 0 {
        out
    } else {
        let front = sweep_spec(opponents, reach, own, down, pot, out, (n - 1) as nat);
        let target = met(own, down, n - 1);
        let count = passed(opponents, down, target.strength, opponents.len());
        let share = not_blocked(sums_met(opponents, reach, down, count), target).times_spec(pot);
        let i = target.range_index as int;
        front.update(
            i,
            if down {
                front[i].minus_spec(share)
            } else {
                front[i].plus_spec(share)
            },
        )
    }
}

/// Values with those of one finished board added.
pub open spec fn swept_values<S: Scalar>(
    opponents: Seq<SweepTarget>,
    reach: Seq<S>,
    own: Seq<SweepTarget>,
    pot: S,
    out: Seq<S>,
) -> Seq<S> {
    sweep_spec(
        opponents,
        reach,
        own,
        true,
        pot,
        sweep_spec(opponents, reach, own, false, pot, out, own.len()),
        own.len(),
    )
}

proof fn lemma_passed_all(targets: Seq<SweepTarget>, down: bool, own: u64, cursor: nat, n: nat)
    requires
        cursor <= n <= targets.len(),
        forall|k: int| 0 <= k < cursor ==> is_passed(down, (#[trigger] met(targets, down, k)).strength, own),
        forall|k: int| cursor <= k < n ==> !is_passed(down, (#[trigger] met(targets, down, k)).strength, own),
    ensures
        passed(targets, down, own, n) == cursor,
    decreases n,
{
    if n > 0 {
        if cursor < n {
            let last = met(targets, down, n - 1);
            lemma_passed_all(targets, down, own, cursor, (n - 1) as nat);
        } else {
            let last = met(targets, down, n - 1);
            lemma_passed_all(targets, down, own, (n - 1) as nat, (n - 1) as nat);
        }
    }
}

fn met_at(targets: &Vec<SweepTarget>, down: bool, k: usize) -> (r: SweepTarget)
    requires
        k < targets@.len(),
    ensures
        r == met(targets@, down, k as int),
{
    if down {
        targets[targets.len() - 1 - k]
    } else {
        targets[k]
    }
}

/// One sweep over the own hands.
fn sweep<S: Scalar>(
    opponents: &Vec<SweepTarget>,
    reach: &[S],
    own: &Vec<SweepTarget>,
    down: bool,
    pot: S,
    out: &mut Vec<S>,
)
    requires
        are_rising(opponents@),
        are_rising(own@),
        are_hands(opponents@, reach@.len()),
        are_hands(own@, old(out)@.len()),
    ensures
        final(out)@ == sweep_spec(opponents@, reach@, own@, down, pot, old(out)@, own@.len()),
        final(out)@.len() == old(out)@.len(),
{
    let ghost before = out@;
    let mut total: S = S::zero();
    let mut cards: Vec<S> = zeros(52);
    let mut cursor: usize = 0;
    for i in 0..own.len()
        invariant
            are_rising(opponents@),
            are_rising(own@),
            are_hands(opponents@, reach@.len()),
            are_hands(own@, before.len()),
            cursor <= opponents@.len(),
            cards@.len() == 52,
            (CardSums { total, cards: cards@ }) == sums_met(opponents@, reach@, down, cursor as nat),
            out@.len() == before.len(),
            out@ == sweep_spec(opponents@, reach@, own@, down, pot, before, i as nat),
            forall|k: int|
                0 <= k < cursor ==> i > 0 && is_passed(
                    down,
                    (#[trigger] met(opponents@, down, k)).strength,
                    met(own@, down, i - 1).strength,
                ),
    {
        let target: SweepTarget = met_at(own, down, i);
        proof {
            assert(target.range_index < before.len() && target.first_card < 52 && target.second_card
                < 52);
            if i > 0 {
                let prior = met(own@, down, i - 1);
                assert(if down {
                    target.strength <= prior.strength
                } else {
                    prior.strength <= target.strength
                });
            }
        }
        let mut more: bool = true;
        while more
            invariant
                are_rising(opponents@),
                are_hands(opponents@, reach@.len()),
                cursor <= opponents@.len(),
                cards@.len() == 52,
                (CardSums { total, cards: cards@ }) == sums_met(opponents@, reach@, down, cursor as nat),
                forall|k: int|
                    0 <= k < cursor ==> is_passed(
                        down,
                        (#[trigger] met(opponents@, down, k)).strength,
                        target.strength,
                    ),
                !more ==> (cursor == opponents@.len() || !is_passed(
                    down,
                    met(opponents@, down, cursor as int).strength,
                    target.strength,
                )),
            decreases opponents@.len() - cursor + (if more { 1int } else { 0 }),
        {
            if cursor >= opponents.len() {
                more = false;
            } else {
                let opponent: SweepTarget = met_at(opponents, down, cursor);
                let goes_on: bool = if down {
                    opponent.strength > target.strength
                } else {
                    opponent.strength < target.strength
                };
                if goes_on {
                    proof {
                        assert(opponent.range_index < reach@.len() && opponent.first_card < 52
                            && opponent.second_card < 52);
                    }
                    let value: S = reach[opponent.range_index];
                    if !value.same(S::zero()) {
                        total = total.plus(value);
                        let first: S = cards[opponent.first_card].plus(value);
                        cards.set(opponent.first_card, first);
                        let second: S = cards[opponent.second_card].plus(value);
                        cards.set(opponent.second_card, second);
                    }
                    cursor = cursor + 1;
                } else {
                    more = false;
                }
            }
        }
        proof {
            assert forall|k: int| cursor <= k < opponents@.len() implies !is_passed(
                down,
                (#[trigger] met(opponents@, down, k)).strength,
                target.strength,
            ) by {
                let at = met(opponents@, down, cursor as int);
                if k > cursor {
                    let (a, b) = if down {
                        (opponents@.len() - 1 - k, opponents@.len() - 1 - cursor)
                    } else {
                        (cursor as int, k)
                    };
                    assert(opponents@[a].strength <= opponents@[b].strength);
                }
            }
            lemma_passed_all(opponents@, down, target.strength, cursor as nat, opponents@.len());
        }
        let share: S = total.minus(cards[target.first_card]).minus(cards[target.second_card]).times(
            pot,
        );
        let was: S = out[target.range_index];
        if down {
            out.set(target.range_index, was.minus(share));
        } else {
            out.set(target.range_index, was.plus(share));
        }
    }
}

fn sweep_both<S: Scalar>(
    opponents: &Vec<SweepTarget>,
    reach: &[S],
    own: &Vec<SweepTarget>,
    pot: S,
    out: &mut Vec<S>,
)
    requires
        are_rising(opponents@),
        are_rising(own@),
        are_hands(opponents@, reach@.len()),
        are_hands(own@, old(out)@.len()),
    ensures
        final(out)@ == swept_values(opponents@, reach@, own@, pot, old(out)@),
        final(out)@.len() == old(out)@.len(),
{
    sweep(opponents, reach, own, false, pot, out);
    sweep(opponents, reach, own, true, pot, out);
}

/// The hands of targets on a board.
fn sweep_targets(prepared: &PreparedTerminalBoard, targets: &[PreparedComboTarget]) -> (r: Vec<SweepTarget>)
    requires
        prepared.wf(),
        forall|k: int| 0 <= k < targets@.len() ==> (#[trigger] targets@[k]).board_index < prepared.count(),
    ensures
        r@ == targets_swept(*prepared, targets@),
{
    let mut list: Vec<SweepTarget> = Vec::new();
    for k in 0..targets.len()
        invariant
            prepared.wf(),
            forall|j: int|
                0 <= j < targets@.len() ==> (#[trigger] targets@[j]).board_index < prepared.count(),
            list@ =~= targets_swept(*prepared, targets@).take(k as int),
    {
        let target: PreparedComboTarget = targets[k];
        proof {
            assert(targets@[k as int].board_index < prepared.count());
        }
        let place: usize = target.board_index as usize;
        let combo = prepared.combo(place);
        proof {
            card_position_round_trip(combo.first, 0);
            card_position_round_trip(combo.second, 0);
        }
        list.push(
            SweepTarget {
                strength: prepared.strength(place),
                range_index: target.range_index,
                first_card: combo.first.index(),
                second_card: combo.second.index(),
            },
        );
    }
    proof {
        let goal = targets_swept(*prepared, targets@);
        assert(goal.take(targets@.len() as int) =~= goal);
    }
    list
}

/// Adds the values of one finished board to the hands of a range.
pub fn terminal_side_range_targets_sorted_accumulate<S: Scalar>(
    prepared: &PreparedTerminalBoard,
    opponent_targets_sorted: &[PreparedComboTarget],
    opponent_reach: &[S],
    own_targets_sorted: &[PreparedComboTarget],
    pot: S,
    out: &mut Vec<S>,
)
    requires
        prepared.wf(),
        are_rising(targets_swept(*prepared, opponent_targets_sorted@)),
        are_rising(targets_swept(*prepared, own_targets_sorted@)),
        forall|k: int|
            0 <= k < opponent_targets_sorted@.len() ==> {
                let target = #[trigger] opponent_targets_sorted@[k];
                target.range_index < opponent_reach@.len() && target.board_index < prepared.count()
            },
        forall|k: int|
            0 <= k < own_targets_sorted@.len() ==> {
                let target = #[trigger] own_targets_sorted@[k];
                target.range_index < old(out)@.len() && target.board_index < prepared.count()
            },
    ensures
        final(out)@ == swept_values(
            targets_swept(*prepared, opponent_targets_sorted@),
            opponent_reach@,
            targets_swept(*prepared, own_targets_sorted@),
            pot,
            old(out)@,
        ),
        final(out)@.len() == old(out)@.len(),
{
    proof {
        lemma_targets_are_hands(*prepared, opponent_targets_sorted@, opponent_reach@.len());
        lemma_targets_are_hands(*prepared, own_targets_sorted@, out@.len());
    }
    let opponents: Vec<SweepTarget> = sweep_targets(prepared, opponent_targets_sorted);
    let own: Vec<SweepTarget> = sweep_targets(prepared, own_targets_sorted);
    sweep_both(&opponents, opponent_reach, &own, pot, out);
}

/// Targets on a board are hands of their range.
pub proof fn lemma_targets_are_hands(
    prepared: PreparedTerminalBoard,
    targets: Seq<PreparedComboTarget>,
    count: nat,
)
    requires
        forall|k: int| 0 <= k < targets.len() ==> (#[trigger] targets[k]).range_index < count,
    ensures
        are_hands(targets_swept(prepared, targets), count),
{
    let list = targets_swept(prepared, targets);
    assert forall|i: int| 0 <= i < list.len() implies (#[trigger] list[i]).range_index < count
        && list[i].first_card < 52 && list[i].second_card < 52 by {
        let combo = prepared.combos_spec()[targets[i].board_index as int];
        assert(targets[i].range_index < count);
        card_position_round_trip(combo.first, 0);
        card_position_round_trip(combo.second, 0);
    }
}

/// Adds the values of a river to the hands of a range.
pub fn terminal_side_river_targets_sorted_accumulate<S: Scalar>(
    opponent_targets_sorted: &[PreparedRiverTarget],
    opponent_reach: &[S],
    own_targets_sorted: &[PreparedRiverTarget],
    pot: S,
    out: &mut Vec<S>,
)
    requires
        are_rising(rivers_swept(opponent_targets_sorted@)),
        are_rising(rivers_swept(own_targets_sorted@)),
        are_hands(rivers_swept(opponent_targets_sorted@), opponent_reach@.len()),
        are_hands(rivers_swept(own_targets_sorted@), old(out)@.len()),
    ensures
        final(out)@ == swept_values(
            rivers_swept(opponent_targets_sorted@),
            opponent_reach@,
            rivers_swept(own_targets_sorted@),
            pot,
            old(out)@,
        ),
        final(out)@.len() == old(out)@.len(),
{
    let opponents: Vec<SweepTarget> = sweep_rivers(opponent_targets_sorted);
    let own: Vec<SweepTarget> = sweep_rivers(own_targets_sorted);
    sweep_both(&opponents, opponent_reach, &own, pot, out);
}

fn sweep_rivers(targets: &[PreparedRiverTarget]) -> (r: Vec<SweepTarget>)
    ensures
        r@ == rivers_swept(targets@),
{
    let mut list: Vec<SweepTarget> = Vec::new();
    for k in 0..targets.len()
        invariant
            list@ =~= rivers_swept(targets@).take(k as int),
    {
        let target: PreparedRiverTarget = targets[k];
        list.push(
            SweepTarget {
                strength: target.strength,
                range_index: target.range_index as usize,
                first_card: target.first_card as usize,
                second_card: target.second_card as usize,
            },
        );
    }
    proof {
        assert(rivers_swept(targets@).take(targets@.len() as int) =~= rivers_swept(targets@));
    }
    list
}

/// The strengths of targets, as sort keys.
pub open spec fn strength_keys(prepared: PreparedTerminalBoard, targets: Seq<PreparedComboTarget>) -> Seq<
    SortKey,
> {
    Seq::new(
        targets.len(),
        |i: int|
            SortKey {
                first: prepared.strengths_spec()[targets[i].board_index as int],
                second: 0,
                third: 0,
                fourth: 0,
            },
    )
}

/// Whether targets are others, put in the order of their strengths; of equal ones the earlier first.
pub open spec fn are_sorted_targets(
    prepared: PreparedTerminalBoard,
    targets: Seq<PreparedComboTarget>,
    sorted: Seq<PreparedComboTarget>,
) -> bool {
    exists|order: Seq<usize>|
        {
            &&& #[trigger] is_sorting(
                strength_keys(prepared, targets),
                0,
                targets.len() as int,
                order,
            )
            &&& sorted == Seq::new(order.len(), |i: int| targets[order[i] as int])
        }
}

/// The targets of a board from the weakest to the strongest.
pub fn sort_combo_targets_by_strength(prepared: &PreparedTerminalBoard, targets: &[PreparedComboTarget]) -> (r:
    Vec<PreparedComboTarget>)
    requires
        prepared.wf(),
        forall|k: int| 0 <= k < targets@.len() ==> (#[trigger] targets@[k]).board_index < prepared.count(),
    ensures
        are_sorted_targets(*prepared, targets@, r@),
{
    let mut keys: Vec<SortKey> = Vec::new();
    for k in 0..targets.len()
        invariant
            prepared.wf(),
            forall|j: int|
                0 <= j < targets@.len() ==> (#[trigger] targets@[j]).board_index < prepared.count(),
            keys@ =~= strength_keys(*prepared, targets@).take(k as int),
    {
        proof {
            assert(targets@[k as int].board_index < prepared.count());
        }
        keys.push(SortKey::one(prepared.strength(targets[k].board_index as usize)));
    }
    proof {
        assert(keys@ =~= strength_keys(*prepared, targets@));
    }
    let order: Vec<usize> = sorted_positions(&keys);
    let mut sorted: Vec<PreparedComboTarget> = Vec::new();
    for k in 0..order.len()
        invariant
            is_sorting(keys@, 0, targets@.len() as int, order@),
            sorted@ =~= Seq::new(order@.len(), |i: int| targets@[order@[i] as int]).take(k as int),
    {
        sorted.push(targets[order[k]]);
    }
    proof {
        assert(sorted@ =~= Seq::new(order@.len(), |i: int| targets@[order@[i] as int]));
    }
    sorted
}

/// Sorted targets rise, and are the targets that were sorted.
pub proof fn sorted_targets_rise(
    prepared: PreparedTerminalBoard,
    targets: Seq<PreparedComboTarget>,
    sorted: Seq<PreparedComboTarget>,
)
    requires
        targets.len() <= usize::MAX,
        are_sorted_targets(prepared, targets, sorted),
    ensures
        sorted.len() == targets.len(),
        are_rising(targets_swept(prepared, sorted)),
        forall|k: int| 0 <= k < sorted.len() ==> targets.contains(#[trigger] sorted[k]),
        forall|k: int| 0 <= k < targets.len() ==> sorted.contains(#[trigger] targets[k]),
{
    let keys = strength_keys(prepared, targets);
    let order = choose|order: Seq<usize>|
        {
            &&& #[trigger] is_sorting(keys, 0, targets.len() as int, order)
            &&& sorted == Seq::new(order.len(), |i: int| targets[order[i] as int])
        };
    let list = targets_swept(prepared, sorted);
    assert forall|i: int, j: int| 0 <= i < j < list.len() implies #[trigger] list[i].strength
        <= #[trigger] list[j].strength by {
        assert(comes_before(keys, order[i] as int, order[j] as int));
    }
    assert forall|k: int| 0 <= k < targets.len() implies sorted.contains(#[trigger] targets[k]) by {
        assert(order.contains(k as usize));
        let p = choose|p: int| 0 <= p < order.len() && order[p] == k as usize;
        assert(sorted[p] == targets[k]);
    }
}

/// The targets of a river in few bytes.
pub fn prepared_river_targets(prepared: &PreparedTerminalBoard, targets_sorted: &[PreparedComboTarget]) -> (r:
    Vec<PreparedRiverTarget>)
    requires
        prepared.wf(),
        forall|k: int|
            0 <= k < targets_sorted@.len() ==> {
                let target = #[trigger] targets_sorted@[k];
                target.board_index < prepared.count() && target.range_index <= u16::MAX
            },
    ensures
        rivers_swept(r@) == targets_swept(*prepared, targets_sorted@),
{
    let mut list: Vec<PreparedRiverTarget> = Vec::new();
    for k in 0..targets_sorted.len()
        invariant
            prepared.wf(),
            forall|j: int|
                0 <= j < targets_sorted@.len() ==> {
                    let target = #[trigger] targets_sorted@[j];
                    target.board_index < prepared.count() && target.range_index <= u16::MAX
                },
            list@.len() == k,
            forall|j: int|
                0 <= j < k ==> (#[trigger] list@[j]).swept() == target_swept(
                    *prepared,
                    targets_sorted@[j],
                ),
    {
        let target: PreparedComboTarget = targets_sorted[k];
        proof {
            assert(targets_sorted@[k as int].board_index < prepared.count());
        }
        let place: usize = target.board_index as usize;
        let combo = prepared.combo(place);
        proof {
            card_position_round_trip(combo.first, 0);
            card_position_round_trip(combo.second, 0);
        }
        list.push(
            PreparedRiverTarget {
                strength: prepared.strength(place),
                range_index: target.range_index as u16,
                first_card: combo.first.index() as u8,
                second_card: combo.second.index() as u8,
            },
        );
    }
    proof {
        assert(rivers_swept(list@) =~= targets_swept(*prepared, targets_sorted@));
    }
    list
}

} // verus!
