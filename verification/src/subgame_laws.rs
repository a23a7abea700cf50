//! What a solver of a subgame learns: values are those of the player out of position, who favours actions
//! that are worth more, while the player in position favours those that are worth less.
use vstd::prelude::*;
use crate::matching_laws::above;
use crate::measure::{pair_in_steps, share_in_steps, MeasuredScalar};
use crate::pot_laws::lemma_counted;
use crate::scalar::{ExactScalar, Scalar};
use crate::subgame::{Player, Sides};
use crate::subgame_nodes::{average_weight_spec, discount_spec, learned, CfrVariant, Entry, Turn};
use crate::sums::negate_twice;
use crate::update_laws::{comparable, is_share};

verus! {

/// Numbers with their signs turned.
pub open spec fn turned<S: Scalar>(values: Seq<S>) -> Seq<S> {
    Seq::new(values.len(), |i: int| values[i].negate_spec())
}

/// Players swapped.
pub open spec fn swapped<S>(reach: Sides<S>) -> Sides<S> {
    Sides { oop: reach.ip, ip: reach.oop }
}

/// Learning is alike for both players: the player in position learns from values what the player out of
/// position learns from the values with their signs turned.
pub proof fn players_learn_alike<S: ExactScalar>(
    entry: Entry<S>,
    reach: Sides<S>,
    strategy: Seq<S>,
    values: Seq<S>,
    value: S,
    turn: Turn<S>,
)
    ensures
        learned(entry, Player::Ip, reach, strategy, values, value, turn) == learned(
            entry,
            Player::Oop,
            swapped(reach),
            strategy,
            turned(values),
            value.negate_spec(),
            turn,
        ),
{
    let a = learned(entry, Player::Ip, reach, strategy, values, value, turn);
    let b = learned(
        entry,
        Player::Oop,
        swapped(reach),
        strategy,
        turned(values),
        value.negate_spec(),
        turn,
    );
    assert forall|i: int| 0 <= i < entry.regrets.len() && i < values.len() implies value.minus_spec(
        #[trigger] values[i],
    ) == turned(values)[i].minus_spec(value.negate_spec()) by {
        let of = values[i];
        S::minus_is_plus_negation(value, of);
        S::minus_is_plus_negation(of.negate_spec(), value.negate_spec());
        negate_twice(value);
        S::plus_commutes(value, of.negate_spec());
    }
    assert forall|i: int| 0 <= i < entry.regrets.len() implies #[trigger] a.regrets[i] == b.regrets[i] by {
        if i < values.len() {
            assert(value.minus_spec(values[i]) == turned(values)[i].minus_spec(value.negate_spec()));
        }
    }
    assert(a.regrets =~= b.regrets);
    assert(a.sums =~= b.sums);
}

/// How much more an action was worth than the decision to a player, in steps.
pub open spec fn gain_steps<S: MeasuredScalar>(player: Player, value: S, of_action: S) -> int {
    match player {
        Player::Oop => of_action.steps() - value.steps(),
        Player::Ip => value.steps() - of_action.steps(),
    }
}

/// A regret after an iteration: no more of it is kept than there was, it moves by what the action was worth
/// more than the decision to the player, as far as the other player reaches it, and it does not fall below
/// zero. What the strategies sum up to grows by the own reach and by how often the action was taken.
pub proof fn regrets_follow_the_player<S: MeasuredScalar>(
    entry: Entry<S>,
    player: Player,
    reach: Sides<S>,
    strategy: Seq<S>,
    values: Seq<S>,
    value: S,
    turn: Turn<S>,
    i: int,
)
    requires
        0 <= i < entry.regrets.len(),
        i < values.len(),
        entry.regrets[i].steps() >= 0,
        comparable::<S>(entry.regrets[i].steps()),
        comparable::<S>(value.steps()),
        comparable::<S>(values[i].steps()),
        is_share(reach.oop),
        is_share(reach.ip),
        is_share(discount_spec(entry.regrets[i], turn.iteration, turn.variant)),
    ensures
        ({
            let after = learned(entry, player, reach, strategy, values, value, turn).regrets[i].steps();
            let still = learned(
                entry,
                player,
                reach,
                strategy,
                values.update(i, value),
                value,
                turn,
            ).regrets[i].steps();
            let against = reach.of_spec(player.other_spec()).steps();
            let gain = gain_steps(player, value, values[i]);
            &&& 0 <= still <= entry.regrets[i].steps()
            &&& turn.variant == CfrVariant::CfrPlus ==> still == entry.regrets[i].steps()
            &&& after == above(still + (against * gain) / S::unit())
            &&& gain >= 0 ==> after >= still
            &&& gain <= 0 ==> after <= still
            &&& against == S::unit() ==> after == above(still + gain)
            &&& against == 0 ==> after == still
        }),
{
    S::measured_units();
    let zero = S::zero_spec();
    let old = entry.regrets[i];
    let discount = discount_spec(old, turn.iteration, turn.variant);
    share_in_steps(discount, old);
    if turn.variant == CfrVariant::CfrPlus {
        S::measured_order(old.times_spec(discount), old);
    }
    let kept = old.times_spec(discount);
    pair_in_steps(values[i], value);
    pair_in_steps(value, values[i]);
    pair_in_steps(value, value);
    let against = reach.of_spec(player.other_spec());
    let gain = match player {
        Player::Oop => values[i].minus_spec(value),
        Player::Ip => value.minus_spec(values[i]),
    };
    share_in_steps(against, gain);
    share_in_steps(against, value.minus_spec(value));
    pair_in_steps(kept, against.times_spec(gain));
    pair_in_steps(kept.plus_spec(against.times_spec(gain)), zero);
    let none = against.times_spec(value.minus_spec(value));
    assert(against.steps() * 0 == 0);
    assert(none.steps() == 0);
    pair_in_steps(kept, none);
    pair_in_steps(kept.plus_spec(none), zero);
    S::measured_order(none, zero);
}

/// Of two actions with one regret, the one that gives the player out of position less ends with at least as
/// much regret for the player in position, and with at most as much for the player out of position.
pub proof fn players_favour_what_is_theirs<S: MeasuredScalar>(
    entry: Entry<S>,
    reach: Sides<S>,
    strategy: Seq<S>,
    values: Seq<S>,
    value: S,
    turn: Turn<S>,
    less: int,
    more: int,
)
    requires
        0 <= less < entry.regrets.len(),
        0 <= more < entry.regrets.len(),
        less < values.len(),
        more < values.len(),
        entry.regrets[less] == entry.regrets[more],
        entry.regrets[less].steps() >= 0,
        values[less].steps() <= values[more].steps(),
        comparable::<S>(entry.regrets[less].steps()),
        comparable::<S>(value.steps()),
        comparable::<S>(values[less].steps()),
        comparable::<S>(values[more].steps()),
        is_share(reach.oop),
        is_share(reach.ip),
        is_share(discount_spec(entry.regrets[less], turn.iteration, turn.variant)),
    ensures
        ({
            let oop = learned(entry, Player::Oop, reach, strategy, values, value, turn).regrets;
            let ip = learned(entry, Player::Ip, reach, strategy, values, value, turn).regrets;
            &&& oop[less].steps() <= oop[more].steps()
            &&& ip[less].steps() >= ip[more].steps()
        }),
{
    S::measured_units();
    lemma_ordered(entry, Player::Oop, reach, strategy, values, value, turn, less, more);
    lemma_ordered(entry, Player::Ip, reach, strategy, values, value, turn, more, less);
}

proof fn lemma_ordered<S: MeasuredScalar>(
    entry: Entry<S>,
    player: Player,
    reach: Sides<S>,
    strategy: Seq<S>,
    values: Seq<S>,
    value: S,
    turn: Turn<S>,
    worse: int,
    better: int,
)
    requires
        0 <= worse < entry.regrets.len(),
        0 <= better < entry.regrets.len(),
        worse < values.len(),
        better < values.len(),
        entry.regrets[worse] == entry.regrets[better],
        entry.regrets[worse].steps() >= 0,
        gain_steps(player, value, values[worse]) <= gain_steps(player, value, values[better]),
        comparable::<S>(entry.regrets[worse].steps()),
        comparable::<S>(value.steps()),
        comparable::<S>(values[worse].steps()),
        comparable::<S>(values[better].steps()),
        is_share(reach.oop),
        is_share(reach.ip),
        is_share(discount_spec(entry.regrets[worse], turn.iteration, turn.variant)),
    ensures
        learned(entry, player, reach, strategy, values, value, turn).regrets[worse].steps() <= learned(
            entry,
            player,
            reach,
            strategy,
            values,
            value,
            turn,
        ).regrets[better].steps(),
{
    S::measured_units();
    regrets_follow_the_player(entry, player, reach, strategy, values, value, turn, worse);
    regrets_follow_the_player(entry, player, reach, strategy, values, value, turn, better);
    let against = reach.of_spec(player.other_spec()).steps();
    let a = gain_steps(player, value, values[worse]);
    let b = gain_steps(player, value, values[better]);
    assert(against * a <= against * b) by (nonlinear_arith)
        requires
            a <= b,
            against >= 0,
    ;
    vstd::arithmetic::div_mod::lemma_div_is_ordered(against * a, against * b, S::unit());
    lemma_still(entry, player, reach, strategy, values, value, turn, worse, better);
}

proof fn lemma_still<S: MeasuredScalar>(
    entry: Entry<S>,
    player: Player,
    reach: Sides<S>,
    strategy: Seq<S>,
    values: Seq<S>,
    value: S,
    turn: Turn<S>,
    a: int,
    b: int,
)
    requires
        0 <= a < entry.regrets.len(),
        0 <= b < entry.regrets.len(),
        a < values.len(),
        b < values.len(),
        entry.regrets[a] == entry.regrets[b],
    ensures
        learned(
            entry,
            player,
            reach,
            strategy,
            values.update(a, value),
            value,
            turn,
        ).regrets[a] == learned(
            entry,
            player,
            reach,
            strategy,
            values.update(b, value),
            value,
            turn,
        ).regrets[b],
{
}

/// How often the strategy of an iteration counts: as its number says, or the square of it if regrets are discounted.
pub open spec fn count_of(variant: CfrVariant, iteration: usize) -> int {
    match variant {
        CfrVariant::CfrPlus => iteration as int,
        CfrVariant::DcfrPlus => iteration * iteration,
    }
}

/// What the strategies of a hand sum up to grows as often as the iteration counts, by how often the action
/// was taken, where the hand was sure to come there, and not where it was not to.
pub proof fn strategies_add_up<S: MeasuredScalar>(
    entry: Entry<S>,
    player: Player,
    reach: Sides<S>,
    strategy: Seq<S>,
    values: Seq<S>,
    value: S,
    turn: Turn<S>,
    i: int,
)
    requires
        0 <= i < entry.sums.len(),
        i < values.len(),
        turn.average_weight == average_weight_spec::<S>(turn.variant, turn.iteration),
        turn.iteration * turn.iteration * S::unit() <= S::limit() / 8,
        entry.sums[i].steps() >= 0,
        comparable::<S>(entry.sums[i].steps()),
        is_share(strategy[i]),
    ensures
        ({
            let after = learned(entry, player, reach, strategy, values, value, turn).sums[i].steps();
            &&& reach.of_spec(player) == S::one_spec() ==> after == entry.sums[i].steps()
                + count_of(turn.variant, turn.iteration) * strategy[i].steps()
            &&& reach.of_spec(player) == S::zero_spec() ==> after == entry.sums[i].steps()
        }),
{
    S::measured_units();
    let zero = S::zero_spec();
    let one = S::one_spec();
    let unit = S::unit();
    let n = count_of(turn.variant, turn.iteration);
    let s = strategy[i].steps();
    let t = turn.iteration as int;
    assert(0 <= t * unit <= t * t * unit && t * t >= 0) by (nonlinear_arith)
        requires
            t >= 0,
            unit >= 2,
    ;
    lemma_counted::<S>(turn.iteration);
    let weight = turn.average_weight;
    assert(weight.steps() == n * unit);
    vstd::arithmetic::div_mod::lemma_div_multiples_vanish(n * unit, unit);
    assert(unit * (n * unit) == (n * unit) * unit) by (nonlinear_arith);
    S::measured_product(weight, one);
    S::measured_order(weight.times_spec(one), weight);
    assert((n * unit) * s == unit * (n * s)) by (nonlinear_arith);
    vstd::arithmetic::div_mod::lemma_div_multiples_vanish(n * s, unit);
    assert(0 <= n * s <= n * unit) by (nonlinear_arith)
        requires
            0 <= s <= unit,
            n >= 0,
    ;
    S::measured_product(weight, strategy[i]);
    assert(0int / unit == 0) by {
        vstd::arithmetic::div_mod::lemma_div_basics(unit);
    }
    assert(weight.steps() * 0 == 0 && 0 * s == 0);
    S::measured_product(weight, zero);
    S::measured_order(weight.times_spec(zero), zero);
    S::measured_product(zero, strategy[i]);
    pair_in_steps(entry.sums[i], weight.times_spec(strategy[i]));
    pair_in_steps(entry.sums[i], zero.times_spec(strategy[i]));
}

} // verus!
