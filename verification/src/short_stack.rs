//! Shoving, calling and overcalling with a short stack.
//!
//! The share of a pot that a hand wins against ranges comes from outside: an analysis says what it
//! needs to know next, takes the shares, and goes on from there.
use vstd::prelude::*;
use crate::arith::{capped, capped_product};
use crate::blinds::BlindLevel;
use crate::hand_class::HandClass;
use crate::scalar::{ratio, ratio_spec, Scalar};
use crate::sorting::{is_sorting, sorted_positions, sorting, SortKey};

verus! {

/// A short stack and how closely it is looked at.
#[derive(Clone, Copy, Debug)]
pub struct ShortStackConfig {
    pub level: BlindLevel,
    pub alive_players: u8,
    pub stack: u32,
    pub players_behind: u8,
    pub max_boards_per_combo: usize,
    pub range_sample_limit: usize,
    pub iterations: usize,
}

/// What is in the pot before anyone acts.
pub open spec fn dead_pot_spec(level: BlindLevel, alive_players: u8) -> int {
    level.small_blind + level.big_blind + capped(level.per_player_ante * alive_players)
}

impl ShortStackConfig {
    /// Whether the pot with three stacks in it can be counted.
    pub open spec fn fits(self) -> bool {
        dead_pot_spec(self.level, self.alive_players) + capped(3 * self.stack) <= u32::MAX
    }
}

/// A hand with its share of the pot and what playing it is worth.
#[derive(Clone, Copy, Debug)]
pub struct HandResult<S> {
    pub hand: HandClass,
    pub equity: S,
    pub ev: S,
}

/// What a seat shoves, calls and overcalls with.
#[derive(Clone, Debug)]
pub struct SeatRanges<S> {
    pub seat_index: u8,
    pub players_behind: u8,
    pub posted_amount: u32,
    pub call_required_equity: S,
    pub overcall_required_equity: S,
    pub shove_range: Vec<HandResult<S>>,
    pub call_range: Vec<HandResult<S>>,
    pub overcall_range: Vec<HandResult<S>>,
}

/// What all seats shove, call and overcall with.
#[derive(Clone, Debug)]
pub struct ShortStackReport<S> {
    pub dead_pot: u32,
    pub stack_in_big_blinds: S,
    pub orbit_cost: u32,
    pub single_call_required_equity: S,
    pub overcall_required_equity: S,
    pub seats: Vec<SeatRanges<S>>,
}

/// What a seat has posted: its ante, and the big blind in the last seat or the small blind in the
/// seat before it.
pub open spec fn posted_amount_spec(level: BlindLevel, alive_players: u8, seat_index: u8) -> int {
    let last = if alive_players >= 1 {
        alive_players - 1
    } else {
        0
    };
    let before_last = if alive_players >= 2 {
        alive_players - 2
    } else {
        0
    };
    if seat_index == last {
        capped(level.per_player_ante + level.big_blind)
    } else if seat_index == before_last {
        capped(level.per_player_ante + level.small_blind)
    } else {
        level.per_player_ante as int
    }
}

/// What a seat has posted.
pub fn posted_amount(level: BlindLevel, alive_players: u8, seat_index: u8) -> (r: u32)
    ensures
        r == posted_amount_spec(level, alive_players, seat_index),
{
    let ante: u32 = level.per_player_ante;
    let small_blind_seat: u8 = alive_players.saturating_sub(2);
    let big_blind_seat: u8 = alive_players.saturating_sub(1);
    if seat_index == big_blind_seat {
        ante.saturating_add(level.big_blind)
    } else if seat_index == small_blind_seat {
        ante.saturating_add(level.small_blind)
    } else {
        ante
    }
}

/// What a stack is worth for staying in: the logarithm of one and the orbits it lasts.
pub open spec fn survival_value_spec<S: Scalar>(stack: u32, orbit_cost: u32) -> S {
    if stack == 0 || orbit_cost == 0 {
        S::zero_spec()
    } else {
        S::one_spec().plus_spec(S::from_u32_spec(stack).over_spec(S::from_u32_spec(orbit_cost))).ln_spec()
    }
}

/// What a stack is worth for staying in.
pub fn stack_survival_value<S: Scalar>(stack: u32, orbit_cost: u32) -> (r: S)
    ensures
        r == survival_value_spec::<S>(stack, orbit_cost),
{
    if stack == 0 || orbit_cost == 0 {
        return S::zero();
    }
    S::one().plus(S::from_u32(stack).over(S::from_u32(orbit_cost))).ln()
}

/// The share needed to go on: what folding is worth by what winning is worth, between zero and one.
pub open spec fn required_equity_spec<S: Scalar>(fold_stack: u32, win_stack: u32, orbit_cost: u32) -> S {
    let fold_value = survival_value_spec::<S>(fold_stack, orbit_cost);
    let win_value = survival_value_spec::<S>(win_stack, orbit_cost);
    if S::zero_spec().at_least_spec(win_value) {
        S::one_spec()
    } else {
        fold_value.over_spec(win_value).max_spec(S::zero_spec()).min_spec(S::one_spec())
    }
}

/// The share needed to go on.
pub fn survival_required_equity<S: Scalar>(fold_stack: u32, win_stack: u32, orbit_cost: u32) -> (r:
    S)
    ensures
        r == required_equity_spec::<S>(fold_stack, win_stack, orbit_cost),
{
    let fold_value: S = stack_survival_value(fold_stack, orbit_cost);
    let win_value: S = stack_survival_value(win_stack, orbit_cost);
    if S::zero().at_least(win_value) {
        S::one()
    } else {
        fold_value.over(win_value).max_of(S::zero()).min_of(S::one())
    }
}

/// The first hands of a range, as many as a limit says, or all where it is zero.
pub open spec fn sampled_range(range: Seq<HandClass>, limit: nat) -> Seq<HandClass> {
    if limit == 0 || range.len() <= limit {
        range
    } else {
        range.take(limit as int)
    }
}

/// The first hands of a range, as many as a limit says, or all where it is zero.
pub fn sample_range(range: &[HandClass], limit: usize) -> (r: Vec<HandClass>)
    ensures
        r@ == sampled_range(range@, limit as nat),
{
    let count: usize = if limit == 0 || range.len() <= limit {
        range.len()
    } else {
        limit
    };
    let mut sample: Vec<HandClass> = Vec::new();
    for i in 0..count
        invariant
            count <= range@.len(),
            sample@ =~= range@.take(i as int),
    {
        sample.push(range[i]);
    }
    assert(range@.take(range@.len() as int) =~= range@);
    sample
}

/// How many hands a range holds.
pub open spec fn combo_total(range: Seq<HandClass>) -> nat
    decreases range.len(),
{
    if range.len() == 0 {
        0
    } else {
        combo_total(range.drop_last()) + range.last().combo_count()
    }
}

proof fn lemma_combo_total_bound(range: Seq<HandClass>)
    ensures
        combo_total(range) <= 12 * range.len(),
    decreases range.len(),
{
    if range.len() > 0 {
        lemma_combo_total_bound(range.drop_last());
    }
}

/// Whether every class of a list names ranks of the deck.
pub open spec fn all_valid(classes: Seq<HandClass>) -> bool {
    forall|i: int| 0 <= i < classes.len() ==> (#[trigger] classes[i]).valid()
}

/// The share of all hands that a range holds.
pub open spec fn combo_fraction_spec<S: Scalar>(range: Seq<HandClass>) -> S {
    S::from_count_spec(combo_total(range) as usize).over_spec(S::from_u32_spec(1326))
}

/// The share of all hands that a range holds.
pub fn combo_fraction<S: Scalar>(range: &[HandClass]) -> (r: S)
    requires
        all_valid(range@),
        12 * range@.len() <= usize::MAX,
    ensures
        r == combo_fraction_spec::<S>(range@),
{
    let mut total: usize = 0;
    for i in 0..range.len()
        invariant
            all_valid(range@),
            12 * range@.len() <= usize::MAX,
            total == combo_total(range@.take(i as int)),
    {
        assert(range@.take(i + 1).drop_last() =~= range@.take(i as int));
        proof {
            lemma_combo_total_bound(range@.take(i as int));
        }
        total = total + range[i].combos().len();
    }
    assert(range@.take(range@.len() as int) =~= range@);
    S::from_count(total).over(S::from_u32(1326))
}

/// How strong a class looks at a glance.
pub open spec fn heuristic_spec<S: Scalar>(hand: HandClass) -> S {
    let four = S::from_u32_spec(4);
    let high = S::from_u32_spec(hand.high as u32);
    if hand.high == hand.low {
        S::from_u32_spec(100).plus_spec(high.times_spec(four))
    } else {
        let low = S::from_u32_spec(hand.low as u32);
        let gap = S::from_u32_spec((hand.high - hand.low - 1) as u32);
        let extra = if hand.suited {
            S::from_u32_spec(3)
        } else {
            S::zero_spec()
        };
        high.times_spec(four).plus_spec(low.times_spec(ratio_spec(3, 2))).plus_spec(
            extra,
        ).minus_spec(gap.times_spec(S::from_u32_spec(2)))
    }
}

/// How strong a class looks at a glance.
pub fn heuristic_strength<S: Scalar>(hand: HandClass) -> (r: S)
    requires
        hand.valid(),
    ensures
        r == heuristic_spec::<S>(hand),
{
    let four: S = S::from_u32(4);
    let high: S = S::from_u32(hand.high as u32);
    if hand.high == hand.low {
        return S::from_u32(100).plus(high.times(four));
    }
    let low: S = S::from_u32(hand.low as u32);
    let gap: u8 = hand.high - hand.low - 1;
    let extra: S = if hand.suited {
        S::from_u32(3)
    } else {
        S::zero()
    };
    high.times(four).plus(low.times(ratio(3, 2))).plus(extra).minus(
        S::from_u32(gap as u32).times(S::from_u32(2)),
    )
}

/// A key that puts larger numbers first.
pub open spec fn falling_key<S: Scalar>(first: S, second: Option<S>) -> SortKey {
    SortKey {
        first: (u64::MAX - first.place_spec()) as u64,
        second: match second {
            Some(value) => (u64::MAX - value.place_spec()) as u64,
            None => 0,
        },
        third: 0,
        fourth: 0,
    }
}

fn falling<S: Scalar>(first: S, second: Option<S>) -> (r: SortKey)
    ensures
        r == falling_key(first, second),
{
    SortKey {
        first: u64::MAX - first.place(),
        second: match second {
            Some(value) => u64::MAX - value.place(),
            None => 0,
        },
        third: 0,
        fourth: 0,
    }
}

/// Classes by how strong they look, the strongest first.
pub open spec fn by_heuristic<S: Scalar>(classes: Seq<HandClass>) -> Seq<HandClass> {
    let order = sorting(
        Seq::new(
            classes.len(),
            |i: int| falling_key(heuristic_spec::<S>(classes[i]), None::<S>),
        ),
    );
    Seq::new(order.len(), |i: int| classes[order[i] as int])
}

/// The first classes of a list until they hold a number of hands, among its first `n`.
pub open spec fn picked(list: Seq<HandClass>, target: nat, n: nat) -> Seq<HandClass>
    decreases n,
{
    if n == 0 {
        Seq::empty()
    } else {
        let front = picked(list, target, (n - 1) as nat);
        if combo_total(front) >= target {
            front
        } else {
            front.push(list[n - 1])
        }
    }
}

/// The strongest looking classes that make up a share of all hands.
pub open spec fn top_fraction_spec<S: Scalar>(classes: Seq<HandClass>, fraction: S) -> Seq<HandClass> {
    picked(
        by_heuristic::<S>(classes),
        S::from_u32_spec(1326).times_spec(fraction).round_u32_spec() as nat,
        classes.len(),
    )
}

/// The strongest looking classes that make up a share of all hands.
pub fn top_fraction_by_heuristic<S: Scalar>(classes: &[HandClass], fraction: S) -> (r: Vec<
    HandClass,
>)
    requires
        all_valid(classes@),
        12 * classes@.len() <= usize::MAX,
    ensures
        r@ == top_fraction_spec(classes@, fraction),
        all_valid(r@),
        r@.len() <= classes@.len(),
{
    let mut keys: Vec<SortKey> = Vec::new();
    for i in 0..classes.len()
        invariant
            all_valid(classes@),
            keys@ =~= Seq::new(
                i as nat,
                |i: int| falling_key(heuristic_spec::<S>(classes@[i]), None::<S>),
            ),
    {
        keys.push(falling(heuristic_strength::<S>(classes[i]), None));
    }
    let order: Vec<usize> = sorted_positions(&keys);
    assert(keys@ =~= Seq::new(
        classes@.len(),
        |i: int| falling_key(heuristic_spec::<S>(classes@[i]), None::<S>),
    ));
    let target: u32 = S::from_u32(1326).times(fraction).round_u32();
    let ghost list = by_heuristic::<S>(classes@);
    let mut selected: Vec<HandClass> = Vec::new();
    let mut total: usize = 0;
    for n in 0..order.len()
        invariant
            all_valid(classes@),
            all_valid(selected@),
            selected@.len() <= n,
            12 * classes@.len() <= usize::MAX,
            is_sorting(keys@, 0, classes@.len() as int, order@),
            list == Seq::new(order@.len(), |i: int| classes@[order@[i] as int]),
            selected@ == picked(list, target as nat, n as nat),
            total == combo_total(selected@),
    {
        assert(0 <= order@[n as int] < classes@.len());
        if total < target as usize {
            let hand: HandClass = classes[order[n]];
            proof {
                lemma_combo_total_bound(selected@);
                assert(selected@.push(hand).drop_last() =~= selected@);
            }
            total = total + hand.combos().len();
            selected.push(hand);
        }
    }
    selected
}

/// A number multiplied with itself.
pub open spec fn powered<S: Scalar>(base: S, exponent: nat) -> S
    decreases exponent,
{
    if exponent == 0 {
        S::one_spec()
    } else {
        powered(base, (exponent - 1) as nat).times_spec(base)
    }
}

/// Results in order: by worth and then by share, or by share alone, the largest first.
pub open spec fn ranked<S: Scalar>(results: Seq<HandResult<S>>, by_ev: bool) -> Seq<HandResult<S>> {
    let order = sorting(Seq::new(results.len(), |i: int| result_key(results[i], by_ev)));
    Seq::new(order.len(), |i: int| results[order[i] as int])
}

/// By what a result is ordered.
pub open spec fn result_key<S: Scalar>(result: HandResult<S>, by_ev: bool) -> SortKey {
    if by_ev {
        falling_key(result.ev, Some(result.equity))
    } else {
        falling_key(result.equity, None)
    }
}

fn rank_results<S: Scalar>(results: &[HandResult<S>], by_ev: bool) -> (r: Vec<HandResult<S>>)
    ensures
        r@ == ranked(results@, by_ev),
        r@.len() == results@.len(),
        forall|i: int| 0 <= i < r@.len() ==> results@.contains(#[trigger] r@[i]),
{
    let mut keys: Vec<SortKey> = Vec::new();
    for i in 0..results.len()
        invariant
            keys@ =~= Seq::new(i as nat, |i: int| result_key(results@[i], by_ev)),
    {
        let result: HandResult<S> = results[i];
        keys.push(
            if by_ev {
                falling(result.ev, Some(result.equity))
            } else {
                falling(result.equity, None)
            },
        );
    }
    let order: Vec<usize> = sorted_positions(&keys);
    assert(keys@ =~= Seq::new(results@.len(), |i: int| result_key(results@[i], by_ev)));
    let mut sorted: Vec<HandResult<S>> = Vec::new();
    for k in 0..order.len()
        invariant
            is_sorting(keys@, 0, results@.len() as int, order@),
            sorted@ =~= Seq::new(k as nat, |i: int| results@[order@[i] as int]),
            forall|i: int| 0 <= i < sorted@.len() ==> results@.contains(#[trigger] sorted@[i]),
    {
        assert(0 <= order@[k as int] < results@.len());
        sorted.push(results[order[k]]);
    }
    sorted
}

/// What shoving is worth: the pot where all fold, or a share of the called pot less what it costs.
pub open spec fn shove_ev<S: Scalar>(
    fold_probability: S,
    dead_pot: u32,
    all_in_cost: u32,
    equity: S,
) -> S {
    let called = S::one_spec().minus_spec(fold_probability);
    let pot = S::from_u32_spec((dead_pot + capped(2 * all_in_cost)) as u32);
    fold_probability.times_spec(S::from_u32_spec(dead_pot)).plus_spec(
        called.times_spec(equity.times_spec(pot).minus_spec(S::from_u32_spec(all_in_cost))),
    )
}

/// How likely all players behind fold.
pub open spec fn fold_probability<S: Scalar>(call_range: Seq<HandClass>, players_behind: u8) -> S {
    powered(
        S::one_spec().minus_spec(combo_fraction_spec::<S>(call_range)),
        players_behind as nat,
    )
}

/// The first `n` hands that are worth shoving.
pub open spec fn shoves<S: Scalar>(
    classes: Seq<HandClass>,
    shares: Seq<S>,
    fold_probability: S,
    dead_pot: u32,
    all_in_cost: u32,
    n: nat,
) -> Seq<HandResult<S>>
    decreases n,
{
    if n == 0 {
        Seq::empty()
    } else {
        let front = shoves(
            classes,
            shares,
            fold_probability,
            dead_pot,
            all_in_cost,
            (n - 1) as nat,
        );
        let equity = shares[n - 1];
        let ev = shove_ev(fold_probability, dead_pot, all_in_cost, equity);
        if ev.at_least_spec(S::zero_spec()) {
            front.push(HandResult { hand: classes[n - 1], equity, ev })
        } else {
            front
        }
    }
}

/// The hands that are worth shoving, the most valuable first.
pub open spec fn shove_results<S: Scalar>(
    classes: Seq<HandClass>,
    shares: Seq<S>,
    call_range: Seq<HandClass>,
    players_behind: u8,
    dead_pot: u32,
    all_in_cost: u32,
) -> Seq<HandResult<S>> {
    ranked(
        shoves(
            classes,
            shares,
            fold_probability(call_range, players_behind),
            dead_pot,
            all_in_cost,
            classes.len(),
        ),
        true,
    )
}

/// Whether every hand of a list of results is a class of the deck.
pub open spec fn results_valid<S>(results: Seq<HandResult<S>>) -> bool {
    forall|i: int| 0 <= i < results.len() ==> (#[trigger] results[i]).hand.valid()
}

/// The hands that are worth shoving into callers, given the share each hand wins against them.
pub fn profitable_shove_results<S: Scalar>(
    classes: &[HandClass],
    shares: &[S],
    call_range: &[HandClass],
    players_behind: u8,
    dead_pot: u32,
    all_in_cost: u32,
) -> (r: Vec<HandResult<S>>)
    requires
        all_valid(classes@),
        all_valid(call_range@),
        12 * call_range@.len() <= usize::MAX,
        shares@.len() == classes@.len(),
        dead_pot + capped(2 * all_in_cost) <= u32::MAX,
    ensures
        r@ == shove_results(
            classes@,
            shares@,
            call_range@,
            players_behind,
            dead_pot,
            all_in_cost,
        ),
        results_valid(r@),
        r@.len() <= classes@.len(),
{
    let base: S = S::one().minus(combo_fraction::<S>(call_range));
    let mut folded: S = S::one();
    for k in 0..players_behind
        invariant
            folded == powered(base, k as nat),
    {
        folded = folded.times(base);
    }
    let called: S = S::one().minus(folded);
    let pot: S = S::from_u32(dead_pot + capped_product(all_in_cost, 2));
    let risk: S = S::from_u32(all_in_cost);
    let mut results: Vec<HandResult<S>> = Vec::new();
    for n in 0..classes.len()
        invariant
            all_valid(classes@),
            shares@.len() == classes@.len(),
            called == S::one_spec().minus_spec(folded),
            pot == S::from_u32_spec((dead_pot + capped(2 * all_in_cost)) as u32),
            risk == S::from_u32_spec(all_in_cost),
            results@ == shoves(classes@, shares@, folded, dead_pot, all_in_cost, n as nat),
            results_valid(results@),
            results@.len() <= n,
    {
        let equity: S = shares[n];
        let ev: S = folded.times(S::from_u32(dead_pot)).plus(
            called.times(equity.times(pot).minus(risk)),
        );
        if ev.at_least(S::zero()) {
            results.push(HandResult { hand: classes[n], equity, ev });
        }
    }
    let sorted: Vec<HandResult<S>> = rank_results(&results, true);
    proof {
        lemma_contained_valid(results@, sorted@);
    }
    sorted
}

proof fn lemma_contained_valid<S>(from: Seq<HandResult<S>>, list: Seq<HandResult<S>>)
    requires
        results_valid(from),
        forall|i: int| 0 <= i < list.len() ==> from.contains(#[trigger] list[i]),
    ensures
        results_valid(list),
{
    assert forall|i: int| 0 <= i < list.len() implies (#[trigger] list[i]).hand.valid() by {
        assert(from.contains(list[i]));
        let j = choose|j: int| 0 <= j < from.len() && from[j] == list[i];
        assert(from[j].hand.valid());
    }
}

/// The first `n` hands that win at least the share needed.
pub open spec fn continues<S: Scalar>(
    classes: Seq<HandClass>,
    shares: Seq<S>,
    required: S,
    n: nat,
) -> Seq<HandResult<S>>
    decreases n,
{
    if n == 0 {
        Seq::empty()
    } else {
        let front = continues(classes, shares, required, (n - 1) as nat);
        let equity = shares[n - 1];
        let ev = equity.minus_spec(required);
        if ev.at_least_spec(S::zero_spec()) {
            front.push(HandResult { hand: classes[n - 1], equity, ev })
        } else {
            front
        }
    }
}

/// The hands that win at least the share needed, the largest share first.
pub open spec fn call_results<S: Scalar>(classes: Seq<HandClass>, shares: Seq<S>, required: S) -> Seq<
    HandResult<S>,
> {
    ranked(continues(classes, shares, required, classes.len()), false)
}

/// The hands that are worth a call, given the share each wins.
pub fn profitable_call_range<S: Scalar>(classes: &[HandClass], shares: &[S], required_equity: S) -> (r:
    Vec<HandResult<S>>)
    requires
        all_valid(classes@),
        shares@.len() == classes@.len(),
    ensures
        r@ == call_results(classes@, shares@, required_equity),
        results_valid(r@),
        r@.len() <= classes@.len(),
{
    let mut results: Vec<HandResult<S>> = Vec::new();
    for n in 0..classes.len()
        invariant
            all_valid(classes@),
            shares@.len() == classes@.len(),
            results@ == continues(classes@, shares@, required_equity, n as nat),
            results_valid(results@),
            results@.len() <= n,
    {
        let equity: S = shares[n];
        let ev: S = equity.minus(required_equity);
        if ev.at_least(S::zero()) {
            results.push(HandResult { hand: classes[n], equity, ev });
        }
    }
    let sorted: Vec<HandResult<S>> = rank_results(&results, false);
    proof {
        lemma_contained_valid(results@, sorted@);
    }
    sorted
}

/// The hands of results.
pub open spec fn hands_of<S>(results: Seq<HandResult<S>>) -> Seq<HandClass> {
    Seq::new(results.len(), |i: int| results[i].hand)
}

/// The hands of results.
pub fn result_hands<S: Scalar>(results: &[HandResult<S>]) -> (r: Vec<HandClass>)
    ensures
        r@ == hands_of(results@),
{
    let mut hands: Vec<HandClass> = Vec::new();
    for i in 0..results.len()
        invariant
            hands@ =~= Seq::new(i as nat, |i: int| results@[i].hand),
    {
        hands.push(results[i].hand);
    }
    hands
}

/// The classes that are worth shoving into callers, given the share each wins against them.
pub fn profitable_shove_range<S: Scalar>(
    classes: &[HandClass],
    shares: &[S],
    call_range: &[HandClass],
    players_behind: u8,
    dead_pot: u32,
    all_in_cost: u32,
) -> (r: Vec<HandClass>)
    requires
        all_valid(classes@),
        all_valid(call_range@),
        12 * call_range@.len() <= usize::MAX,
        shares@.len() == classes@.len(),
        dead_pot + capped(2 * all_in_cost) <= u32::MAX,
    ensures
        r@ == hands_of(
            shove_results(
                classes@,
                shares@,
                call_range@,
                players_behind,
                dead_pot,
                all_in_cost,
            ),
        ),
{
    result_hands(
        &profitable_shove_results(
            classes,
            shares,
            call_range,
            players_behind,
            dead_pot,
            all_in_cost,
        ),
    )
}

} // verus!
