//! What sweeps over a finished board pay, in whole numbers of steps: the pot for every hand that is beaten, less
//! the pot for every hand that beats, of the hands that share no card.
use vstd::prelude::*;
use crate::measure::MeasuredScalar;
use crate::node_sweep::{
    are_hands, are_rising, is_passed, met, not_blocked, passed, sums_met, sweep_spec, swept_values,
    with_target, SweepTarget,
};

verus! {

/// The reach of those of the first `n` hands that are picked.
pub open spec fn picked_steps<S: MeasuredScalar>(
    targets: Seq<SweepTarget>,
    reach: Seq<S>,
    pick: spec_fn(SweepTarget) -> bool,
    n: nat,
) -> int
    decreases n,
{
    if n == 0 {
        0
    } else {
        picked_steps(targets, reach, pick, (n - 1) as nat) + (if pick(targets[n - 1]) {
            reach[targets[n - 1].range_index as int].steps()
        } else {
            0
        })
    }
}

/// Whether two hands share a card.
pub open spec fn share_card(a: SweepTarget, b: SweepTarget) -> bool {
    a.first_card == b.first_card || a.first_card == b.second_card || a.second_card == b.first_card
        || a.second_card == b.second_card
}

/// Whether a hand can be there beside another and is weaker.
pub open spec fn loses_to(own: SweepTarget) -> spec_fn(SweepTarget) -> bool {
    |other: SweepTarget| !share_card(own, other) && other.strength < own.strength
}

/// Whether a hand can be there beside another and is stronger.
pub open spec fn wins_over(own: SweepTarget) -> spec_fn(SweepTarget) -> bool {
    |other: SweepTarget| !share_card(own, other) && other.strength > own.strength
}

/// Any hand.
pub open spec fn every() -> spec_fn(SweepTarget) -> bool {
    |other: SweepTarget| true
}

spec fn with_card(card: int) -> spec_fn(SweepTarget) -> bool {
    |other: SweepTarget| other.first_card == card || other.second_card == card
}

spec fn apart(own: SweepTarget) -> spec_fn(SweepTarget) -> bool {
    |other: SweepTarget| !share_card(own, other)
}

spec fn part<S: MeasuredScalar>(
    targets: Seq<SweepTarget>,
    reach: Seq<S>,
    pick: spec_fn(SweepTarget) -> bool,
    down: bool,
    n: nat,
) -> int {
    if down {
        picked_steps(targets, reach, pick, targets.len()) - picked_steps(
            targets,
            reach,
            pick,
            (targets.len() - n) as nat,
        )
    } else {
        picked_steps(targets, reach, pick, n)
    }
}

proof fn lemma_part<S: MeasuredScalar>(
    targets: Seq<SweepTarget>,
    reach: Seq<S>,
    pick: spec_fn(SweepTarget) -> bool,
    down: bool,
    n: nat,
)
    requires
        0 < n <= targets.len(),
    ensures
        part(targets, reach, pick, down, n) == part(targets, reach, pick, down, (n - 1) as nat) + (
        if pick(met(targets, down, n - 1)) {
            reach[met(targets, down, n - 1).range_index as int].steps()
        } else {
            0
        }),
{
    if down {
        let rest = (targets.len() - n + 1) as nat;
        assert((targets.len() - (n - 1)) as nat == rest);
        assert((rest - 1) as nat == (targets.len() - n) as nat);
    }
}

proof fn lemma_start<S: MeasuredScalar>(
    targets: Seq<SweepTarget>,
    reach: Seq<S>,
    pick: spec_fn(SweepTarget) -> bool,
    down: bool,
)
    ensures
        part(targets, reach, pick, down, 0) == 0,
        part(targets, reach, pick, down, targets.len()) == picked_steps(
            targets,
            reach,
            pick,
            targets.len(),
        ),
{
    assert((targets.len() - 0) as nat == targets.len());
    assert((targets.len() - targets.len()) as nat == 0);
}

proof fn lemma_bounds<S: MeasuredScalar>(
    targets: Seq<SweepTarget>,
    reach: Seq<S>,
    pick: spec_fn(SweepTarget) -> bool,
    down: bool,
    n: nat,
)
    requires
        n <= targets.len(),
        are_hands(targets, reach.len()),
        forall|i: int| 0 <= i < reach.len() ==> (#[trigger] reach[i]).steps() >= 0,
    ensures
        0 <= part(targets, reach, pick, down, n) <= part(targets, reach, every(), down, n)
            <= picked_steps(targets, reach, every(), targets.len()),
    decreases n,
{
    lemma_start(targets, reach, pick, down);
    lemma_start(targets, reach, every(), down);
    lemma_rest(targets, reach, down, n, targets.len());
    if n > 0 {
        lemma_bounds(targets, reach, pick, down, (n - 1) as nat);
        lemma_part(targets, reach, pick, down, n);
        lemma_part(targets, reach, every(), down, n);
        let last = met(targets, down, n - 1);
        assert(reach[last.range_index as int].steps() >= 0);
    }
}

proof fn lemma_rest<S: MeasuredScalar>(
    targets: Seq<SweepTarget>,
    reach: Seq<S>,
    down: bool,
    n: nat,
    m: nat,
)
    requires
        n <= m <= targets.len(),
        are_hands(targets, reach.len()),
        forall|i: int| 0 <= i < reach.len() ==> (#[trigger] reach[i]).steps() >= 0,
    ensures
        part(targets, reach, every(), down, n) <= part(targets, reach, every(), down, m),
    decreases m,
{
    if n < m {
        lemma_rest(targets, reach, down, n, (m - 1) as nat);
        lemma_part(targets, reach, every(), down, m);
        let last = met(targets, down, m - 1);
        assert(reach[last.range_index as int].steps() >= 0);
    }
}

proof fn lemma_sums<S: MeasuredScalar>(
    targets: Seq<SweepTarget>,
    reach: Seq<S>,
    down: bool,
    card: int,
    n: nat,
)
    requires
        n <= targets.len(),
        0 <= card < 52,
        are_hands(targets, reach.len()),
        forall|i: int|
            0 <= i < targets.len() ==> (#[trigger] targets[i]).first_card != targets[i].second_card,
        forall|i: int| 0 <= i < reach.len() ==> (#[trigger] reach[i]).steps() >= 0,
        picked_steps(targets, reach, every(), targets.len()) <= S::limit(),
    ensures
        sums_met(targets, reach, down, n).total.steps() == part(targets, reach, every(), down, n),
        sums_met(targets, reach, down, n).cards.len() == 52,
        sums_met(targets, reach, down, n).cards[card].steps() == part(
            targets,
            reach,
            with_card(card),
            down,
            n,
        ),
    decreases n,
{
    S::measured_units();
    lemma_start(targets, reach, every(), down);
    lemma_start(targets, reach, with_card(card), down);
    if n > 0 {
        let m = (n - 1) as nat;
        lemma_sums(targets, reach, down, card, m);
        lemma_part(targets, reach, every(), down, n);
        lemma_part(targets, reach, with_card(card), down, n);
        lemma_bounds(targets, reach, with_card(card), down, n);
        lemma_bounds(targets, reach, with_card(card), down, m);
        let last = met(targets, down, n - 1);
        let value = reach[last.range_index as int];
        let front = sums_met(targets, reach, down, m);
        assert(last.first_card < 52 && last.second_card < 52 && last.first_card != last.second_card);
        S::measured_order(value, S::zero_spec());
        S::measured_sum(front.total, value);
        S::measured_sum(front.cards[card], value);
        let next = with_target(front, last, reach);
        assert(sums_met(targets, reach, down, n) == next);
    }
}

proof fn lemma_apart<S: MeasuredScalar>(
    targets: Seq<SweepTarget>,
    reach: Seq<S>,
    own: SweepTarget,
    down: bool,
    n: nat,
)
    requires
        n <= targets.len(),
        own.first_card != own.second_card,
        forall|i: int|
            0 <= i < targets.len() ==> (#[trigger] targets[i]).first_card != targets[i].second_card,
        forall|k: int|
            0 <= k < n ==> !(with_card(own.first_card as int)(#[trigger] met(targets, down, k))
                && with_card(own.second_card as int)(met(targets, down, k))),
    ensures
        part(targets, reach, apart(own), down, n) == part(targets, reach, every(), down, n) - part(
            targets,
            reach,
            with_card(own.first_card as int),
            down,
            n,
        ) - part(targets, reach, with_card(own.second_card as int), down, n),
    decreases n,
{
    lemma_start(targets, reach, every(), down);
    lemma_start(targets, reach, apart(own), down);
    lemma_start(targets, reach, with_card(own.first_card as int), down);
    lemma_start(targets, reach, with_card(own.second_card as int), down);
    if n > 0 {
        lemma_apart(targets, reach, own, down, (n - 1) as nat);
        lemma_part(targets, reach, every(), down, n);
        lemma_part(targets, reach, apart(own), down, n);
        lemma_part(targets, reach, with_card(own.first_card as int), down, n);
        lemma_part(targets, reach, with_card(own.second_card as int), down, n);
        let last = met(targets, down, n - 1);
        assert(last.first_card != last.second_card);
    }
}

spec fn decided(own: SweepTarget, down: bool) -> spec_fn(SweepTarget) -> bool {
    if down {
        wins_over(own)
    } else {
        loses_to(own)
    }
}

proof fn lemma_passed<S: MeasuredScalar>(
    targets: Seq<SweepTarget>,
    reach: Seq<S>,
    own: SweepTarget,
    down: bool,
    n: nat,
)
    requires
        n <= targets.len(),
        are_rising(targets),
    ensures
        ({
            let count = passed(targets, down, own.strength, n);
            &&& count <= n
            &&& forall|k: int|
                0 <= k < count ==> is_passed(down, (#[trigger] met(targets, down, k)).strength, own.strength)
            &&& forall|k: int|
                count <= k < n ==> !is_passed(
                    down,
                    (#[trigger] met(targets, down, k)).strength,
                    own.strength,
                )
            &&& part(targets, reach, decided(own, down), down, n) == part(
                targets,
                reach,
                apart(own),
                down,
                count,
            )
        }),
    decreases n,
{
    lemma_start(targets, reach, decided(own, down), down);
    lemma_start(targets, reach, apart(own), down);
    if n > 0 {
        let m = (n - 1) as nat;
        lemma_passed(targets, reach, own, down, m);
        lemma_part(targets, reach, decided(own, down), down, n);
        let last = met(targets, down, n - 1);
        let count = passed(targets, down, own.strength, m);
        if is_passed(down, last.strength, own.strength) {
            if count < m {
                let first = met(targets, down, count as int);
                assert(!is_passed(down, first.strength, own.strength));
                assert(false);
            }
            lemma_part(targets, reach, apart(own), down, n);
        }
    }
}

proof fn lemma_one_way<S: MeasuredScalar>(
    opponents: Seq<SweepTarget>,
    reach: Seq<S>,
    own: SweepTarget,
    down: bool,
)
    requires
        are_sweepable(opponents, reach),
        is_sweepable(opponents, own),
        picked_steps(opponents, reach, every(), opponents.len()) <= S::limit() / 8,
    ensures
        ({
            let count = passed(opponents, down, own.strength, opponents.len());
            let share = not_blocked(sums_met(opponents, reach, down, count), own).steps();
            &&& share == picked_steps(opponents, reach, decided(own, down), opponents.len())
            &&& 0 <= share <= S::limit() / 8
        }),
{
    S::measured_units();
    let n = opponents.len();
    lemma_passed(opponents, reach, own, down, n);
    let count = passed(opponents, down, own.strength, n);
    let (first, second) = (own.first_card as int, own.second_card as int);
    lemma_sums(opponents, reach, down, first, count);
    lemma_sums(opponents, reach, down, second, count);
    assert forall|k: int| 0 <= k < count implies !(with_card(first)(
        #[trigger] met(opponents, down, k),
    ) && with_card(second)(met(opponents, down, k))) by {
        let other = met(opponents, down, k);
        let j = if down {
            opponents.len() - 1 - k
        } else {
            k
        };
        assert(other == opponents[j]);
    }
    lemma_apart(opponents, reach, own, down, count);
    lemma_start(opponents, reach, decided(own, down), down);
    lemma_bounds(opponents, reach, with_card(first), down, count);
    lemma_bounds(opponents, reach, with_card(second), down, count);
    lemma_bounds(opponents, reach, apart(own), down, count);
    let sums = sums_met(opponents, reach, down, count);
    S::measured_sum(sums.total, sums.cards[first]);
    S::measured_sum(sums.total.minus_spec(sums.cards[first]), sums.cards[second]);
}

/// Whether hands can be swept over: they rise, hold two cards of the deck each, and are never held less than
/// never.
pub open spec fn are_sweepable<S: MeasuredScalar>(targets: Seq<SweepTarget>, reach: Seq<S>) -> bool {
    &&& are_rising(targets)
    &&& are_hands(targets, reach.len())
    &&& forall|i: int|
        0 <= i < targets.len() ==> (#[trigger] targets[i]).first_card != targets[i].second_card
    &&& forall|i: int| 0 <= i < reach.len() ==> (#[trigger] reach[i]).steps() >= 0
}

/// Whether a hand holds two cards of the deck and is as strong as each hand of the same cards.
pub open spec fn is_sweepable(targets: Seq<SweepTarget>, own: SweepTarget) -> bool {
    &&& own.first_card < 52
    &&& own.second_card < 52
    &&& own.first_card != own.second_card
    &&& forall|i: int|
        0 <= i < targets.len() && ((#[trigger] targets[i]).first_card == own.first_card
            && targets[i].second_card == own.second_card || targets[i].first_card == own.second_card
            && targets[i].second_card == own.first_card) ==> targets[i].strength == own.strength
}

proof fn lemma_sweep<S: MeasuredScalar>(
    opponents: Seq<SweepTarget>,
    reach: Seq<S>,
    own: Seq<SweepTarget>,
    down: bool,
    pot: S,
    out: Seq<S>,
    k: int,
    n: nat,
)
    requires
        n <= own.len(),
        0 <= k < own.len(),
        are_hands(own, out.len()),
        forall|a: int, b: int|
            0 <= a < b < own.len() ==> (#[trigger] own[a]).range_index != (#[trigger] own[b]).range_index,
    ensures
        ({
            let target = own[k];
            let i = target.range_index as int;
            let place = if down {
                own.len() - 1 - k
            } else {
                k
            };
            let count = passed(opponents, down, target.strength, opponents.len());
            let share = not_blocked(sums_met(opponents, reach, down, count), target).times_spec(pot);
            let after = sweep_spec(opponents, reach, own, down, pot, out, n);
            &&& after.len() == out.len()
            &&& n <= place ==> after[i] == out[i]
            &&& n > place ==> after[i] == (if down {
                out[i].minus_spec(share)
            } else {
                out[i].plus_spec(share)
            })
        }),
    decreases n,
{
    if n > 0 {
        lemma_sweep(opponents, reach, own, down, pot, out, k, (n - 1) as nat);
        let place = if down {
            own.len() - 1 - k
        } else {
            k
        };
        let j = if down {
            own.len() - n
        } else {
            n - 1
        };
        assert(met(own, down, n - 1) == own[j]);
        if n - 1 != place {
            assert(j != k);
            if j < k {
                assert(own[j].range_index != own[k].range_index);
            } else {
                assert(own[k].range_index != own[j].range_index);
            }
        } else {
            assert(j == k);
        }
    }
}

/// Sweeps over a finished board add to a hand the pot for the reach of every hand that it beats, and take the pot
/// for that of every hand that beats it, of the hands that share no card with it.
pub proof fn sweeps_pay_the_stronger_hand<S: MeasuredScalar>(
    opponents: Seq<SweepTarget>,
    reach: Seq<S>,
    own: Seq<SweepTarget>,
    pot: u32,
    out: Seq<S>,
    k: int,
)
    requires
        are_sweepable(opponents, reach),
        0 <= k < own.len(),
        are_hands(own, out.len()),
        forall|a: int, b: int|
            0 <= a < b < own.len() ==> (#[trigger] own[a]).range_index != (#[trigger] own[b]).range_index,
        is_sweepable(opponents, own[k]),
        picked_steps(opponents, reach, every(), opponents.len()) * (pot + 1)
            <= S::limit() / 8,
        -S::limit() / 8 <= out[own[k].range_index as int].steps() <= S::limit() / 8,
    ensures
        ({
            let i = own[k].range_index as int;
            let won = picked_steps(opponents, reach, loses_to(own[k]), opponents.len());
            let lost = picked_steps(opponents, reach, wins_over(own[k]), opponents.len());
            swept_values(opponents, reach, own, S::from_u32_spec(pot), out)[i].steps()
                == out[i].steps() + pot * won - pot * lost
        }),
{
    S::measured_units();
    S::measured_counts(pot, 0);
    let unit = S::unit();
    let chips = S::from_u32_spec(pot);
    let all = picked_steps(opponents, reach, every(), opponents.len());
    lemma_bounds(opponents, reach, every(), false, opponents.len());
    let limit = S::limit() / 8;
    assert(0 <= all <= limit) by (nonlinear_arith)
        requires
            all >= 0,
            all * (pot + 1) <= limit,
            pot >= 0,
    ;
    let target = own[k];
    let i = target.range_index as int;
    lemma_one_way(opponents, reach, target, false);
    lemma_one_way(opponents, reach, target, true);
    let up = not_blocked(
        sums_met(opponents, reach, false, passed(opponents, false, target.strength, opponents.len())),
        target,
    );
    let down = not_blocked(
        sums_met(opponents, reach, true, passed(opponents, true, target.strength, opponents.len())),
        target,
    );
    let (won, lost) = (up.steps(), down.steps());
    lemma_start(opponents, reach, loses_to(target), false);
    lemma_start(opponents, reach, wins_over(target), false);
    lemma_start(opponents, reach, every(), false);
    lemma_bounds(opponents, reach, loses_to(target), false, opponents.len());
    lemma_bounds(opponents, reach, wins_over(target), false, opponents.len());
    assert(0 <= pot * won <= limit && 0 <= pot * lost <= limit) by (nonlinear_arith)
        requires
            0 <= won <= all,
            0 <= lost <= all,
            all * (pot + 1) <= limit,
            pot >= 0,
    ;
    assert(won * (pot * unit) == unit * (pot * won)) by (nonlinear_arith);
    assert(lost * (pot * unit) == unit * (pot * lost)) by (nonlinear_arith);
    vstd::arithmetic::div_mod::lemma_div_multiples_vanish(pot * won, unit);
    vstd::arithmetic::div_mod::lemma_div_multiples_vanish(pot * lost, unit);
    S::measured_product(up, chips);
    S::measured_product(down, chips);
    lemma_sweep(opponents, reach, own, false, chips, out, k, own.len());
    let once = sweep_spec(opponents, reach, own, false, chips, out, own.len());
    lemma_sweep(opponents, reach, own, true, chips, once, k, own.len());
    S::measured_sum(out[i], up.times_spec(chips));
    S::measured_sum(once[i], down.times_spec(chips));
}

} // verus!
