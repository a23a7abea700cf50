//! What a player of a subgame can do, and what it does to the pot.
use vstd::prelude::*;
use crate::scalar::{ExactScalar, Scalar};
use crate::subgame::{AbstractionView, ActionAbstraction, BetSize, Player, PotState, Sides};

verus! {

/// An action. Bets, raises and shoves say how much the player has then put in on the street.
#[derive(Clone, Copy, Debug, PartialEq)]
pub enum ActionKind<S> {
    Check,
    Fold,
    Call,
    Bet(S),
    Raise(S),
    AllIn(S),
}

/// What a player has put in on the street once all in.
pub open spec fn all_in_spec<S: Scalar>(player: Player, pot: PotState<S>) -> S {
    pot.committed.of_spec(player).plus_spec(pot.stacks.of_spec(player))
}

/// What a player has put in on the street once all in.
pub fn all_in_commitment<S: Scalar>(player: Player, pot: PotState<S>) -> (r: S)
    ensures
        r == all_in_spec(player, pot),
{
    pot.committed.of(player).plus(pot.stacks.of(player))
}

/// What a bet of a size comes to, no more than all in.
pub open spec fn commitment_spec<S: Scalar>(
    size: BetSize<S>,
    player: Player,
    pot: PotState<S>,
    base: S,
) -> S {
    let amount = match size {
        BetSize::PotFraction(fraction) => pot.pot.times_spec(fraction),
        BetSize::CurrentBetMultiple(multiplier) => base.max_spec(S::one_spec()).times_spec(
            multiplier,
        ),
        BetSize::Chips(chips) => chips,
        BetSize::AllIn => all_in_spec(player, pot),
    };
    amount.min_spec(all_in_spec(player, pot))
}

/// What a bet of a size comes to, no more than all in.
pub fn capped_commitment<S: Scalar>(
    size: BetSize<S>,
    player: Player,
    pot: PotState<S>,
    base: S,
) -> (r: S)
    ensures
        r == commitment_spec(size, player, pot, base),
{
    let amount: S = match size {
        BetSize::PotFraction(fraction) => pot.pot.times(fraction),
        BetSize::CurrentBetMultiple(multiplier) => base.max_of(S::one()).times(multiplier),
        BetSize::Chips(chips) => chips,
        BetSize::AllIn => all_in_commitment(player, pot),
    };
    amount.min_of(all_in_commitment(player, pot))
}

/// The action that a bet of a size is.
pub open spec fn sized_action_spec<S>(size: BetSize<S>, amount: S, facing_bet: bool) -> ActionKind<
    S,
> {
    match size {
        BetSize::AllIn => ActionKind::AllIn(amount),
        _ => if facing_bet {
            ActionKind::Raise(amount)
        } else {
            ActionKind::Bet(amount)
        },
    }
}

/// The action that a bet of a size is.
pub fn sized_aggressive_action<S: Scalar>(size: BetSize<S>, amount: S, facing_bet: bool) -> (r:
    ActionKind<S>)
    ensures
        r == sized_action_spec(size, amount, facing_bet),
{
    match size {
        BetSize::AllIn => ActionKind::AllIn(amount),
        _ => if facing_bet {
            ActionKind::Raise(amount)
        } else {
            ActionKind::Bet(amount)
        },
    }
}

/// Whether a player faces a bet.
pub open spec fn faces_bet<S: Scalar>(player: Player, pot: PotState<S>) -> bool {
    !pot.committed.of_spec(player).at_least_spec(pot.current_bet)
}

/// The bets of the first `n` sizes that are above a floor.
pub open spec fn sized_actions<S: Scalar>(
    sizes: Seq<BetSize<S>>,
    player: Player,
    pot: PotState<S>,
    base: S,
    floor: S,
    facing_bet: bool,
    n: nat,
) -> Seq<ActionKind<S>>
    decreases n,
{
    if n == 0 {
        Seq::empty()
    } else {
        let front = sized_actions(sizes, player, pot, base, floor, facing_bet, (n - 1) as nat);
        let amount = commitment_spec(sizes[n - 1], player, pot, base);
        if amount.exceeds_spec(floor) {
            front.push(sized_action_spec(sizes[n - 1], amount, facing_bet))
        } else {
            front
        }
    }
}

/// The shove, where it is looked at and above a floor.
pub open spec fn shove_actions<S: Scalar>(
    allowed: bool,
    player: Player,
    pot: PotState<S>,
    floor: S,
) -> Seq<ActionKind<S>> {
    if allowed && all_in_spec(player, pot).exceeds_spec(floor) {
        seq![ActionKind::AllIn(all_in_spec(player, pot))]
    } else {
        Seq::empty()
    }
}

/// The bets of a list of sizes, with the shove.
pub open spec fn aggressive_actions<S: Scalar>(
    sizes: Seq<BetSize<S>>,
    allowed: bool,
    player: Player,
    pot: PotState<S>,
    base: S,
    floor: S,
    facing_bet: bool,
) -> Seq<ActionKind<S>> {
    sized_actions(sizes, player, pot, base, floor, facing_bet, sizes.len()) + shove_actions(
        allowed,
        player,
        pot,
        floor,
    )
}

/// What a player can do: check or bet, or fold, call and, up to a limit, raise.
pub open spec fn legal_spec<S: Scalar>(
    actions: AbstractionView<S>,
    player: Player,
    pot: PotState<S>,
    raises: u8,
) -> Seq<ActionKind<S>> {
    if !faces_bet(player, pot) {
        seq![ActionKind::Check] + aggressive_actions(
            actions.bet_sizes,
            actions.allow_all_in,
            player,
            pot,
            pot.pot,
            pot.committed.of_spec(player),
            false,
        )
    } else if raises < actions.max_raises {
        seq![ActionKind::Fold, ActionKind::Call] + aggressive_actions(
            if raises == 0 {
                actions.raise_sizes
            } else {
                actions.reraise_sizes
            },
            actions.allow_all_in,
            player,
            pot,
            pot.current_bet,
            pot.current_bet,
            true,
        )
    } else {
        seq![ActionKind::Fold, ActionKind::Call]
    }
}

fn push_aggressive<S: Scalar>(
    sizes: &[BetSize<S>],
    allowed: bool,
    player: Player,
    pot: PotState<S>,
    base: S,
    floor: S,
    facing_bet: bool,
    list: &mut Vec<ActionKind<S>>,
)
    ensures
        final(list)@ == old(list)@ + aggressive_actions(
            sizes@,
            allowed,
            player,
            pot,
            base,
            floor,
            facing_bet,
        ),
{
    for n in 0..sizes.len()
        invariant
            list@ =~= old(list)@ + sized_actions(
                sizes@,
                player,
                pot,
                base,
                floor,
                facing_bet,
                n as nat,
            ),
    {
        let amount: S = capped_commitment(sizes[n], player, pot, base);
        if amount.exceeds(floor) {
            list.push(sized_aggressive_action(sizes[n], amount, facing_bet));
        }
    }
    if allowed {
        let amount: S = all_in_commitment(player, pot);
        if amount.exceeds(floor) {
            list.push(ActionKind::AllIn(amount));
        }
    }
    assert(list@ =~= old(list)@ + aggressive_actions(
        sizes@,
        allowed,
        player,
        pot,
        base,
        floor,
        facing_bet,
    ));
}

/// What a player can do.
pub fn legal_actions<S: Scalar>(
    actions: &ActionAbstraction<S>,
    player: Player,
    pot: PotState<S>,
    raises: u8,
) -> (r: Vec<ActionKind<S>>)
    ensures
        r@ == legal_spec(actions@, player, pot, raises),
        r@.len() > 0,
{
    let mut list: Vec<ActionKind<S>> = Vec::new();
    if pot.committed.of(player).at_least(pot.current_bet) {
        list.push(ActionKind::Check);
        assert(list@ =~= seq![ActionKind::Check]);
        push_aggressive(
            &actions.bet_sizes,
            actions.allow_all_in,
            player,
            pot,
            pot.pot,
            pot.committed.of(player),
            false,
            &mut list,
        );
        return list;
    }
    list.push(ActionKind::Fold);
    list.push(ActionKind::Call);
    assert(list@ =~= seq![ActionKind::Fold, ActionKind::Call]);
    if raises < actions.max_raises {
        push_aggressive(
            if raises == 0 {
                &actions.raise_sizes
            } else {
                &actions.reraise_sizes
            },
            actions.allow_all_in,
            player,
            pot,
            pot.current_bet,
            pot.current_bet,
            true,
            &mut list,
        );
    }
    list
}

/// A pot after chips of a player went in.
pub open spec fn paid<S: Scalar>(player: Player, pot: PotState<S>, chips: S) -> PotState<S> {
    PotState {
        pot: pot.pot.plus_spec(chips),
        stacks: pot.stacks.with_spec(player, pot.stacks.of_spec(player).minus_spec(chips)),
        committed: pot.committed.with_spec(player, pot.committed.of_spec(player).plus_spec(chips)),
        invested: pot.invested.with_spec(player, pot.invested.of_spec(player).plus_spec(chips)),
        ..pot
    }
}

fn pay<S: Scalar>(player: Player, pot: PotState<S>, chips: S) -> (r: PotState<S>)
    ensures
        r == paid(player, pot, chips),
{
    PotState {
        pot: pot.pot.plus(chips),
        stacks: pot.stacks.with(player, pot.stacks.of(player).minus(chips)),
        committed: pot.committed.with(player, pot.committed.of(player).plus(chips)),
        invested: pot.invested.with(player, pot.invested.of(player).plus(chips)),
        current_bet: pot.current_bet,
        min_raise: pot.min_raise,
    }
}

/// What a player still has to put in to reach an amount, no more than the stack.
pub open spec fn missing<S: Scalar>(player: Player, pot: PotState<S>, amount: S) -> S {
    amount.minus_spec(pot.committed.of_spec(player)).max_spec(S::zero_spec()).min_spec(
        pot.stacks.of_spec(player),
    )
}

/// The pot after a bet, raise or shove.
pub open spec fn aggressive_spec<S: Scalar>(player: Player, pot: PotState<S>, amount: S) -> PotState<
    S,
> {
    let after = paid(player, pot, missing(player, pot, amount));
    let committed = after.committed.of_spec(player);
    PotState {
        min_raise: committed.minus_spec(pot.current_bet).max_spec(pot.min_raise),
        current_bet: pot.current_bet.max_spec(committed),
        ..after
    }
}

/// The pot after a bet, raise or shove.
pub fn apply_aggressive<S: Scalar>(player: Player, pot: PotState<S>, amount: S) -> (r: PotState<S>)
    ensures
        r == aggressive_spec(player, pot, amount),
{
    let chips: S = amount.minus(pot.committed.of(player)).max_of(S::zero()).min_of(
        pot.stacks.of(player),
    );
    let after: PotState<S> = pay(player, pot, chips);
    let committed: S = after.committed.of(player);
    PotState {
        pot: after.pot,
        stacks: after.stacks,
        committed: after.committed,
        invested: after.invested,
        min_raise: committed.minus(pot.current_bet).max_of(pot.min_raise),
        current_bet: pot.current_bet.max_of(committed),
    }
}

/// The pot after a call.
pub open spec fn call_spec<S: Scalar>(player: Player, pot: PotState<S>) -> PotState<S> {
    paid(player, pot, missing(player, pot, pot.current_bet))
}

/// The pot after a call.
pub fn apply_call<S: Scalar>(player: Player, pot: PotState<S>) -> (r: PotState<S>)
    ensures
        r == call_spec(player, pot),
{
    let chips: S = pot.current_bet.minus(pot.committed.of(player)).max_of(S::zero()).min_of(
        pot.stacks.of(player),
    );
    pay(player, pot, chips)
}

/// The pot at the start of the next street.
pub open spec fn next_street_spec<S: Scalar>(pot: PotState<S>) -> PotState<S> {
    PotState {
        committed: Sides { oop: S::zero_spec(), ip: S::zero_spec() },
        current_bet: S::zero_spec(),
        min_raise: S::zero_spec(),
        ..pot
    }
}

/// The pot at the start of the next street.
pub fn advance_street<S: Scalar>(pot: PotState<S>) -> (r: PotState<S>)
    ensures
        r == next_street_spec(pot),
{
    PotState {
        pot: pot.pot,
        stacks: pot.stacks,
        committed: Sides::new(S::zero(), S::zero()),
        invested: pot.invested,
        current_bet: S::zero(),
        min_raise: S::zero(),
    }
}

/// All chips of a pot: what is in it and what is behind.
pub open spec fn chips_of<S: Scalar>(pot: PotState<S>) -> S {
    pot.pot.plus_spec(pot.stacks.oop).plus_spec(pot.stacks.ip)
}

/// No action makes or loses chips.
pub proof fn actions_keep_chips<S: ExactScalar>(player: Player, pot: PotState<S>, amount: S)
    ensures
        chips_of(aggressive_spec(player, pot, amount)) == chips_of(pot),
        chips_of(call_spec(player, pot)) == chips_of(pot),
        chips_of(next_street_spec(pot)) == chips_of(pot),
{
    lemma_paid_keeps_chips(player, pot, missing(player, pot, amount));
    lemma_paid_keeps_chips(player, pot, missing(player, pot, pot.current_bet));
}

proof fn lemma_paid_keeps_chips<S: ExactScalar>(player: Player, pot: PotState<S>, chips: S)
    ensures
        chips_of(paid(player, pot, chips)) == chips_of(pot),
{
    let (p, o, i, c) = (pot.pot, pot.stacks.oop, pot.stacks.ip, chips);
    let n = c.negate_spec();
    S::minus_is_plus_negation(o, c);
    S::minus_is_plus_negation(i, c);
    S::plus_negation(c);
    S::plus_commutes(c, n);
    match player {
        Player::Oop => {
            S::plus_associates(p, c, o.plus_spec(n));
            S::plus_commutes(o, n);
            S::plus_associates(c, n, o);
            S::plus_zero(o);
            S::plus_commutes(S::zero_spec(), o);
        },
        Player::Ip => {
            let po = p.plus_spec(o);
            S::plus_associates(p, c, o);
            S::plus_commutes(c, o);
            S::plus_associates(p, o, c);
            S::plus_associates(po, c, i.plus_spec(n));
            S::plus_commutes(i, n);
            S::plus_associates(c, n, i);
            S::plus_zero(i);
            S::plus_commutes(S::zero_spec(), i);
        },
    }
}

} // verus!
