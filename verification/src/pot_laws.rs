//! What bets and calls do to the pot, and what the pot pays where betting ends, in whole numbers of steps.
use vstd::prelude::*;
use crate::cards::Card;
use crate::measure::{share_in_steps, MeasuredScalar};
use crate::report_laws::half_in_steps;
use crate::river::Combo;
use crate::scalar::ratio_spec;
use crate::subgame::{AbstractionView, BetSize, Player, PotState};
use crate::subgame_actions::{
    aggressive_spec, call_spec, commitment_spec, faces_bet, legal_spec, missing, next_street_spec, paid,
    shove_actions, sized_actions, ActionKind,
};
use crate::subgame_cfr::{ending_value, mean_value, DealtHands};
use crate::subgame_equity::{share_of, tallied, worth};
use crate::subgame_nodes::{average_weight_spec, CfrVariant};
use crate::subgame_tree::TerminalKind;
use crate::update_laws::{comparable, is_share};

verus! {

/// Whether so many chips can be counted, added up and compared.
pub open spec fn is_amount<S: MeasuredScalar>(chips: S) -> bool {
    0 <= chips.steps() <= S::limit() / 8
}

/// Whether the pot and what was put in can be counted.
pub open spec fn is_pot<S: MeasuredScalar>(pot: PotState<S>) -> bool {
    &&& is_amount(pot.pot)
    &&& is_amount(pot.stacks.oop)
    &&& is_amount(pot.stacks.ip)
    &&& is_amount(pot.committed.oop)
    &&& is_amount(pot.committed.ip)
    &&& is_amount(pot.invested.oop)
    &&& is_amount(pot.invested.ip)
    &&& is_amount(pot.current_bet)
    &&& is_amount(pot.min_raise)
}

/// Whether a player put so many more steps into the pot, and nothing else changed hands.
pub open spec fn puts_in<S: MeasuredScalar>(
    player: Player,
    before: PotState<S>,
    after: PotState<S>,
    steps: int,
) -> bool {
    let other = player.other_spec();
    &&& steps >= 0
    &&& after.pot.steps() == before.pot.steps() + steps
    &&& after.stacks.of_spec(player).steps() == before.stacks.of_spec(player).steps() - steps
    &&& after.committed.of_spec(player).steps() == before.committed.of_spec(player).steps() + steps
    &&& after.invested.of_spec(player).steps() == before.invested.of_spec(player).steps() + steps
    &&& after.stacks.of_spec(other) == before.stacks.of_spec(other)
    &&& after.committed.of_spec(other) == before.committed.of_spec(other)
    &&& after.invested.of_spec(other) == before.invested.of_spec(other)
}

/// A player who calls matches the bet or is all in, and puts no more in than that takes.
pub proof fn callers_match_the_bet<S: MeasuredScalar>(player: Player, pot: PotState<S>)
    requires
        is_pot(pot),
    ensures
        ({
            let after = call_spec(player, pot);
            let open = pot.current_bet.steps() - pot.committed.of_spec(player).steps();
            let stack = pot.stacks.of_spec(player).steps();
            &&& open <= 0 ==> puts_in(player, pot, after, 0)
            &&& 0 <= open <= stack ==> puts_in(player, pot, after, open)
            &&& 0 <= open <= stack ==> after.committed.of_spec(player) == pot.current_bet
            &&& open > stack ==> puts_in(player, pot, after, stack)
            &&& open > stack ==> after.stacks.of_spec(player).steps() == 0
            &&& after.current_bet == pot.current_bet
            &&& after.min_raise == pot.min_raise
        }),
{
    lemma_paid(player, pot, pot.current_bet);
    S::measured_order(call_spec(player, pot).committed.of_spec(player), pot.current_bet);
}

/// A player who bets or raises to an amount has that much in on the street, or is all in. That is the bet to
/// match if it is above the one before, and by how much it is above is the least to raise by, if that is above
/// the one before.
pub proof fn bettors_set_the_bet<S: MeasuredScalar>(player: Player, pot: PotState<S>, amount: S)
    requires
        is_pot(pot),
        0 <= amount.steps() <= S::limit() / 4,
        pot.committed.of_spec(player).steps() <= amount.steps(),
    ensures
        ({
            let after = aggressive_spec(player, pot, amount);
            let open = amount.steps() - pot.committed.of_spec(player).steps();
            let stack = pot.stacks.of_spec(player).steps();
            let bet = after.committed.of_spec(player).steps();
            &&& open <= stack ==> puts_in(player, pot, after, open) && bet == amount.steps()
            &&& open > stack ==> puts_in(player, pot, after, stack)
                && after.stacks.of_spec(player).steps() == 0
            &&& bet >= pot.current_bet.steps() ==> after.current_bet.steps() == bet
            &&& bet < pot.current_bet.steps() ==> after.current_bet == pot.current_bet
            &&& after.min_raise.steps() >= pot.min_raise.steps()
            &&& after.min_raise.steps() >= bet - pot.current_bet.steps()
            &&& after.min_raise.steps() == pot.min_raise.steps() || after.min_raise.steps() == bet
                - pot.current_bet.steps()
        }),
{
    lemma_paid(player, pot, amount);
    let after = aggressive_spec(player, pot, amount);
    let committed = after.committed.of_spec(player);
    S::measured_order(pot.current_bet, committed);
    S::measured_sum(committed, pot.current_bet);
    S::measured_order(committed.minus_spec(pot.current_bet), pot.min_raise);
}

proof fn lemma_paid<S: MeasuredScalar>(player: Player, pot: PotState<S>, amount: S)
    requires
        is_pot(pot),
        0 <= amount.steps() <= S::limit() / 4,
    ensures
        ({
            let after = paid(
                player,
                pot,
                missing(player, pot, amount),
            );
            let open = amount.steps() - pot.committed.of_spec(player).steps();
            let stack = pot.stacks.of_spec(player).steps();
            &&& puts_in(
                player,
                pot,
                after,
                if open <= 0 {
                    0
                } else if open <= stack {
                    open
                } else {
                    stack
                },
            )
            &&& after.current_bet == pot.current_bet
            &&& after.min_raise == pot.min_raise
        }),
{
    S::measured_units();
    let zero = S::zero_spec();
    let stack = pot.stacks.of_spec(player);
    let committed = pot.committed.of_spec(player);
    S::measured_sum(amount, committed);
    let open = amount.minus_spec(committed);
    S::measured_order(open, zero);
    let some = open.max_spec(zero);
    S::measured_order(some, stack);
    let chips = some.min_spec(stack);
    S::measured_sum(pot.pot, chips);
    S::measured_sum(stack, chips);
    S::measured_sum(committed, chips);
    S::measured_sum(pot.invested.of_spec(player), chips);
}

/// A bet of a share of the pot is that share of it, a raise to a multiple of the bet is that multiple, a bet of
/// chips is so many; no bet is more than all in, and a shove is just that.
pub proof fn sizes_come_to_their_amounts<S: MeasuredScalar>(
    size: BetSize<S>,
    player: Player,
    pot: PotState<S>,
    base: S,
)
    requires
        is_pot(pot),
        is_amount(base),
        size matches BetSize::PotFraction(fraction) ==> 0 <= fraction.steps() && (pot.pot.steps()
            * fraction.steps()) / S::unit() <= S::limit(),
        size matches BetSize::CurrentBetMultiple(multiplier) ==> S::unit() <= multiplier.steps() && ((
        base.steps() + S::unit()) * multiplier.steps()) / S::unit() <= S::limit(),
    ensures
        ({
            let amount = commitment_spec(size, player, pot, base).steps();
            let all_in = pot.committed.of_spec(player).steps() + pot.stacks.of_spec(player).steps();
            &&& amount <= all_in
            &&& size == BetSize::<S>::AllIn ==> amount == all_in
            &&& size matches BetSize::Chips(chips) ==> amount == chips.steps() || amount == all_in
                < chips.steps()
            &&& size matches BetSize::PotFraction(fraction) ==> {
                let part = (pot.pot.steps() * fraction.steps()) / S::unit();
                &&& amount == part || amount == all_in < part
                &&& fraction == S::one_spec() ==> part == pot.pot.steps()
                &&& fraction.steps() <= S::unit() ==> amount <= pot.pot.steps()
            }
            &&& size matches BetSize::CurrentBetMultiple(multiplier) ==> {
                let least = (if base.steps() >= S::unit() {
                    base.steps()
                } else {
                    S::unit()
                });
                let part = (least * multiplier.steps()) / S::unit();
                &&& amount == part || amount == all_in < part
                &&& part >= base.steps()
                &&& multiplier == S::one_spec() ==> part == least
            }
        }),
{
    S::measured_units();
    let committed = pot.committed.of_spec(player);
    let stack = pot.stacks.of_spec(player);
    S::measured_sum(committed, stack);
    let all_in = committed.plus_spec(stack);
    let unit = S::unit();
    match size {
        BetSize::PotFraction(fraction) => {
            let p = pot.pot.steps();
            let f = fraction.steps();
            assert(p * f >= 0) by (nonlinear_arith)
                requires
                    p >= 0,
                    f >= 0,
            ;
            vstd::arithmetic::div_mod::lemma_div_pos_is_pos(p * f, unit);
            S::measured_product(pot.pot, fraction);
            S::measured_order(pot.pot.times_spec(fraction), all_in);
            vstd::arithmetic::div_mod::lemma_fundamental_div_mod(p * f, unit);
            let q = (p * f) / unit;
            let rest = (p * f) % unit;
            assert(f <= unit ==> q <= p) by (nonlinear_arith)
                requires
                    p * f == unit * q + rest,
                    0 <= rest < unit,
                    p >= 0,
            ;
            assert(f == unit ==> q == p) by (nonlinear_arith)
                requires
                    p * f == unit * q + rest,
                    0 <= rest < unit,
            ;
        },
        BetSize::CurrentBetMultiple(multiplier) => {
            S::measured_order(base, S::one_spec());
            let least = base.max_spec(S::one_spec());
            let b = least.steps();
            let m = multiplier.steps();
            assert(b * m <= (base.steps() + unit) * m) by (nonlinear_arith)
                requires
                    0 <= b <= base.steps() + unit,
                    m >= 0,
            ;
            assert(b * m >= 0) by (nonlinear_arith)
                requires
                    b >= 0,
                    m >= 0,
            ;
            vstd::arithmetic::div_mod::lemma_div_is_ordered(b * m, (base.steps() + unit) * m, unit);
            vstd::arithmetic::div_mod::lemma_div_pos_is_pos(b * m, unit);
            S::measured_product(least, multiplier);
            S::measured_order(least.times_spec(multiplier), all_in);
            vstd::arithmetic::div_mod::lemma_fundamental_div_mod(b * m, unit);
            let q = (b * m) / unit;
            let rest = (b * m) % unit;
            assert(q >= b) by (nonlinear_arith)
                requires
                    b * m == unit * q + rest,
                    0 <= rest < unit,
                    b >= 0,
                    m >= unit,
            ;
            assert(m == unit ==> q == b) by (nonlinear_arith)
                requires
                    b * m == unit * q + rest,
                    0 <= rest < unit,
            ;
        },
        BetSize::Chips(chips) => {
            S::measured_order(chips, all_in);
        },
        BetSize::AllIn => {
            S::measured_order(all_in, all_in);
        },
    }
}

/// A new street leaves the pot, the stacks and what was put in so far as they are, and no player faces a bet.
pub proof fn streets_start_without_bets<S: MeasuredScalar>(player: Player, pot: PotState<S>)
    ensures
        ({
            let after = next_street_spec(pot);
            &&& after.pot == pot.pot
            &&& after.stacks == pot.stacks
            &&& after.invested == pot.invested
            &&& after.committed.of_spec(player).steps() == 0
            &&& after.current_bet.steps() == 0
            &&& after.min_raise.steps() == 0
            &&& !faces_bet(player, after)
        }),
{
    S::measured_units();
    S::measured_order(S::zero_spec(), S::zero_spec());
}

/// What an action that bets comes to.
pub open spec fn amount_of<S>(action: ActionKind<S>) -> Option<S> {
    match action {
        ActionKind::Bet(amount) => Some(amount),
        ActionKind::Raise(amount) => Some(amount),
        ActionKind::AllIn(amount) => Some(amount),
        _ => None,
    }
}

/// A player who has less in than the bet can fold, call and, up to a limit, raise; any other can check or
/// bet. Every bet is more than there is to match and no more than all in, so that, once made, it is the bet
/// that the other player faces.
pub proof fn offered_bets_can_be_made<S: MeasuredScalar>(
    actions: AbstractionView<S>,
    player: Player,
    pot: PotState<S>,
    raises: u8,
    i: int,
)
    requires
        is_pot(pot),
        pot.committed.of_spec(player.other_spec()).steps() <= pot.current_bet.steps(),
        0 <= i < legal_spec(actions, player, pot, raises).len(),
    ensures
        ({
            let list = legal_spec(actions, player, pot, raises);
            let facing = pot.committed.of_spec(player).steps() < pot.current_bet.steps();
            let committed = pot.committed.of_spec(player).steps();
            let all_in = committed + pot.stacks.of_spec(player).steps();
            &&& facing == faces_bet(player, pot)
            &&& facing ==> list.len() >= 2 && list[0] == ActionKind::<S>::Fold && list[1] == ActionKind::<
                S,
            >::Call
            &&& !facing ==> list[0] == ActionKind::<S>::Check
            &&& facing && raises >= actions.max_raises ==> list.len() == 2
            &&& i >= (if facing {
                2int
            } else {
                1int
            }) ==> {
                &&& amount_of(list[i]) is Some
                &&& list[i] is Bet ==> !facing
                &&& list[i] is Raise ==> facing
                &&& (if facing {
                    pot.current_bet.steps()
                } else {
                    committed
                }) < amount_of(list[i])->0.steps() <= all_in
                &&& faces_bet(
                    player.other_spec(),
                    aggressive_spec(player, pot, amount_of(list[i])->0),
                )
            }
        }),
{
    let committed = pot.committed.of_spec(player);
    S::measured_order(committed, pot.current_bet);
    S::measured_sum(committed, pot.stacks.of_spec(player));
    let list = legal_spec(actions, player, pot, raises);
    let facing = faces_bet(player, pot);
    let start: int = if facing {
        2
    } else {
        1
    };
    if i >= start {
        let sizes = if !facing {
            actions.bet_sizes
        } else if raises == 0 {
            actions.raise_sizes
        } else {
            actions.reraise_sizes
        };
        let base = if facing {
            pot.current_bet
        } else {
            pot.pot
        };
        let floor = if facing {
            pot.current_bet
        } else {
            committed
        };
        let sized = sized_actions(sizes, player, pot, base, floor, facing, sizes.len());
        let all_in = committed.plus_spec(pot.stacks.of_spec(player));
        if i - start < sized.len() {
            assert(list[i] == sized[i - start]);
            lemma_sized(sizes, player, pot, base, floor, facing, sizes.len(), i - start);
        } else {
            let shoves = shove_actions(actions.allow_all_in, player, pot, floor);
            assert(list[i] == shoves[i - start - sized.len()]);
            S::measured_order(all_in, floor);
        }
        let amount = amount_of(list[i])->0;
        assert(floor.steps() >= committed.steps());
        lemma_paid(player, pot, amount);
        let after = aggressive_spec(player, pot, amount);
        let bet = after.committed.of_spec(player);
        S::measured_order(pot.current_bet, bet);
        let other = after.committed.of_spec(player.other_spec());
        assert(other == pot.committed.of_spec(player.other_spec()));
        S::measured_order(other, after.current_bet);
    }
}

proof fn lemma_sized<S: MeasuredScalar>(
    sizes: Seq<BetSize<S>>,
    player: Player,
    pot: PotState<S>,
    base: S,
    floor: S,
    facing: bool,
    n: nat,
    i: int,
)
    requires
        is_pot(pot),
        0 <= i < sized_actions(sizes, player, pot, base, floor, facing, n).len(),
    ensures
        ({
            let action = sized_actions(sizes, player, pot, base, floor, facing, n)[i];
            &&& amount_of(action) is Some
            &&& action is Bet ==> !facing
            &&& action is Raise ==> facing
            &&& floor.steps() < amount_of(action)->0.steps() <= pot.committed.of_spec(player).steps()
                + pot.stacks.of_spec(player).steps()
        }),
    decreases n,
{
    if n > 0 {
        let front = sized_actions(sizes, player, pot, base, floor, facing, (n - 1) as nat);
        if i < front.len() {
            lemma_sized(sizes, player, pot, base, floor, facing, (n - 1) as nat, i);
            assert(sized_actions(sizes, player, pot, base, floor, facing, n)[i] == front[i]);
        } else {
            let committed = pot.committed.of_spec(player);
            S::measured_sum(committed, pot.stacks.of_spec(player));
            let all_in = committed.plus_spec(pot.stacks.of_spec(player));
            let asked = match sizes[n - 1] {
                BetSize::PotFraction(fraction) => pot.pot.times_spec(fraction),
                BetSize::CurrentBetMultiple(multiplier) => base.max_spec(S::one_spec()).times_spec(
                    multiplier,
                ),
                BetSize::Chips(chips) => chips,
                BetSize::AllIn => all_in,
            };
            let amount = commitment_spec(sizes[n - 1], player, pot, base);
            S::measured_order(asked, all_in);
            S::measured_order(amount, floor);
        }
    }
}

/// Where a player folds, the other takes the pot: between winning and losing it lies the pot, and who loses it
/// is out what was put in. A showdown lies between, as the share that is won does.
pub proof fn winners_take_the_pot<S: MeasuredScalar>(
    pot: PotState<S>,
    invested: S,
    equity: S,
    more: S,
)
    requires
        is_pot(pot),
        is_amount(invested),
        invested.steps() <= pot.invested.oop.steps(),
        is_share(equity),
        is_share(more),
        equity.steps() <= more.steps(),
    ensures
        ({
            let won = ending_value(
                TerminalKind::Fold { winner: Player::Oop },
                pot,
                invested,
                equity,
            ).steps();
            let lost = ending_value(
                TerminalKind::Fold { winner: Player::Ip },
                pot,
                invested,
                equity,
            ).steps();
            let shown = ending_value(TerminalKind::Showdown, pot, invested, equity).steps();
            let better = ending_value(TerminalKind::Showdown, pot, invested, more).steps();
            &&& lost == invested.steps() - pot.invested.oop.steps()
            &&& won == lost + pot.pot.steps()
            &&& shown == lost + (equity.steps() * pot.pot.steps()) / S::unit()
            &&& lost <= shown <= better <= won
            &&& equity == S::one_spec() ==> shown == won
            &&& equity == S::zero_spec() ==> shown == lost
        }),
{
    S::measured_units();
    S::measured_sum(pot.invested.oop, invested);
    let put_in = pot.invested.oop.minus_spec(invested);
    S::measured_sum(put_in, put_in);
    S::measured_sum(pot.pot, put_in);
    share_in_steps(equity, pot.pot);
    share_in_steps(more, pot.pot);
    S::measured_sum(equity.times_spec(pot.pot), put_in);
    S::measured_sum(more.times_spec(pot.pot), put_in);
    let (e, m, p) = (equity.steps(), more.steps(), pot.pot.steps());
    assert(e * p <= m * p) by (nonlinear_arith)
        requires
            e <= m,
            p >= 0,
    ;
    vstd::arithmetic::div_mod::lemma_div_is_ordered(e * p, m * p, S::unit());
}

/// What one player's hand does not win of the pot, the other's does.
pub proof fn players_share_the_pot<S: MeasuredScalar>(hands: DealtHands<S>, player: Player)
    requires
        is_share(hands.equity),
    ensures
        hands.share(player).steps() + hands.share(player.other_spec()).steps() == S::unit(),
        is_share(hands.share(player)),
        hands.share(Player::Oop) == hands.equity,
{
    S::measured_units();
    S::measured_sum(S::one_spec(), hands.equity);
    let u = S::unit();
    assert(u <= S::limit()) by (nonlinear_arith)
        requires
            u * 0x1_0000_0000 <= S::limit(),
            u >= 2,
    ;
}

/// How many of the first `n` finished boards a hand wins against another.
pub open spec fn won_boards(boards: Seq<Seq<Card>>, hand: Combo, other: Combo, n: nat) -> nat
    decreases n,
{
    if n == 0 {
        0
    } else {
        won_boards(boards, hand, other, (n - 1) as nat) + (if worth(boards[n - 1], hand) > worth(
            boards[n - 1],
            other,
        ) {
            1nat
        } else {
            0
        })
    }
}

proof fn lemma_won(boards: Seq<Seq<Card>>, hand: Combo, other: Combo, n: nat)
    ensures
        won_boards(boards, hand, other, n) + won_boards(boards, other, hand, n) <= n,
    decreases n,
{
    if n > 0 {
        lemma_won(boards, hand, other, (n - 1) as nat);
    }
}

proof fn lemma_tallied<S: MeasuredScalar>(boards: Seq<Seq<Card>>, hand: Combo, other: Combo, n: nat)
    requires
        n * S::unit() <= S::limit() / 8,
    ensures
        ({
            let tally = tallied::<S>(boards, hand, other, n);
            &&& tally.wins.steps() == won_boards(boards, hand, other, n) * S::unit()
            &&& tally.ties.steps() == (n - won_boards(boards, hand, other, n) - won_boards(
                boards,
                other,
                hand,
                n,
            )) * S::unit()
            &&& tally.total.steps() == n * S::unit()
        }),
    decreases n,
{
    S::measured_units();
    let u = S::unit();
    if n > 0 {
        let m = (n - 1) as nat;
        assert(m * u + u == n * u) by (nonlinear_arith)
            requires
                n == m + 1,
        ;
        lemma_tallied::<S>(boards, hand, other, m);
        lemma_won(boards, hand, other, m);
        let front = tallied::<S>(boards, hand, other, m);
        S::measured_sum(front.wins, S::one_spec());
        S::measured_sum(front.ties, S::one_spec());
        S::measured_sum(front.total, S::one_spec());
        let w = won_boards(boards, hand, other, m) as int;
        let l = won_boards(boards, other, hand, m) as int;
        assert(0 <= w * u <= m * u && 0 <= (m - w - l) * u <= m * u) by (nonlinear_arith)
            requires
                w >= 0,
                l >= 0,
                w + l <= m,
                u >= 0,
        ;
        assert((w + 1) * u == w * u + u) by (nonlinear_arith);
        assert((m - w - l + 1) * u == (m - w - l) * u + u) by (nonlinear_arith);
        assert(n - (w + 1) - l == m - w - l);
        assert(n - w - (l + 1) == m - w - l);
        assert(n - w - l == m - w - l + 1);
    } else {
        assert(0 * u == 0);
    }
}

/// A hand's share of the pot is the part of the finished boards that it wins, and half of those that it ties,
/// rounded down to a step: all of it if it wins every board, none if it loses every board.
pub proof fn hands_share_by_boards<S: MeasuredScalar>(
    boards: Seq<Seq<Card>>,
    hand: Combo,
    other: Combo,
    n: nat,
)
    requires
        0 < n <= boards.len(),
        n * S::unit() <= S::limit() / 8,
    ensures
        ({
            let share = share_of(tallied::<S>(boards, hand, other, n)).steps();
            let won = won_boards(boards, hand, other, n);
            let lost = won_boards(boards, other, hand, n);
            &&& 2 * n * share <= (n + won - lost) * S::unit() < 2 * n * share + 2 * n
            &&& 0 <= share <= S::unit()
            &&& won == n ==> share == S::unit()
            &&& lost == n ==> share == 0
        }),
{
    S::measured_units();
    let u = S::unit();
    let tally = tallied::<S>(boards, hand, other, n);
    lemma_tallied::<S>(boards, hand, other, n);
    lemma_won(boards, hand, other, n);
    let w = won_boards(boards, hand, other, n) as int;
    let l = won_boards(boards, other, hand, n) as int;
    let t = n - w - l;
    let m = n as int;
    assert(0 <= w * u <= m * u && 0 <= t * u <= m * u && m * u >= u) by (nonlinear_arith)
        requires
            w >= 0,
            l >= 0,
            t == m - w - l,
            t >= 0,
            m >= 1,
            u >= 0,
    ;
    half_in_steps(tally.ties);
    let h = u / 2;
    assert(t * u == 2 * (t * h)) by (nonlinear_arith)
        requires
            u == 2 * h,
    ;
    let half = tally.ties.times_spec(ratio_spec(1, 2));
    assert(half.steps() == t * h);
    S::measured_sum(tally.wins, half);
    let sum = tally.wins.plus_spec(half);
    let s = w * u + t * h;
    assert(sum.steps() == s);
    let d = m * u;
    let q = (s * u) / d;
    let rest = (s * u) % d;
    vstd::arithmetic::div_mod::lemma_fundamental_div_mod(s * u, d);
    assert(0 <= s <= d) by (nonlinear_arith)
        requires
            s == w * u + t * h,
            2 * (t * h) == t * u,
            d == m * u,
            t == m - w - l,
            w >= 0,
            l >= 0,
            t >= 0,
            h >= 0,
            u >= 0,
    ;
    assert(0 <= q <= u) by (nonlinear_arith)
        requires
            s * u == d * q + rest,
            0 <= rest < d,
            0 <= s <= d,
            u > 0,
    ;
    S::measured_quotient(sum, tally.total);
    S::measured_order(tally.total, S::zero_spec());
    let share = share_of(tally).steps();
    assert(share == q);
    assert(m * q <= s < m * q + m) by (nonlinear_arith)
        requires
            s * u == d * q + rest,
            0 <= rest < d,
            d == m * u,
            u > 0,
    ;
    assert(2 * s == (m + w - l) * u) by (nonlinear_arith)
        requires
            s == w * u + t * h,
            2 * (t * h) == t * u,
            t == m - w - l,
    ;
    assert(2 * m * q == 2 * (m * q)) by (nonlinear_arith);
    assert(w == m ==> q == u) by (nonlinear_arith)
        requires
            m * q <= s < m * q + m,
            2 * s == (m + w - l) * u,
            w + l <= m,
            l >= 0,
            m >= 1,
    ;
    assert(l == m ==> q == 0) by (nonlinear_arith)
        requires
            m * q <= s < m * q + m,
            2 * s == (m + w - l) * u,
            w + l <= m,
            w >= 0,
            m >= 1,
    ;
}

/// The value of an iteration on average, as often as there are iterations, is what they are worth together,
/// but for the rounding to a step.
pub proof fn means_add_up<S: MeasuredScalar>(sum: S, iterations: usize)
    requires
        comparable::<S>(sum.steps()),
        iterations * S::unit() <= S::limit(),
    ensures
        iterations > 0 ==> mean_value(sum, iterations).steps() * iterations <= sum.steps()
            < mean_value(sum, iterations).steps() * iterations + iterations,
        iterations == 0 ==> mean_value(sum, iterations).steps() == 0,
{
    S::measured_units();
    if iterations > 0 {
        let n = iterations as int;
        let u = S::unit();
        let s = sum.steps();
        S::measured_counts(0, iterations);
        let d = n * u;
        assert(d > 0) by (nonlinear_arith)
            requires
                d == n * u,
                n > 0,
                u > 0,
        ;
        vstd::arithmetic::div_mod::lemma_fundamental_div_mod(s * u, d);
        let q = (s * u) / d;
        let rest = (s * u) % d;
        assert(n * q <= s < n * q + n) by (nonlinear_arith)
            requires
                s * u == d * q + rest,
                0 <= rest < d,
                d == n * u,
                u > 0,
        ;
        assert(-S::limit() <= q <= S::limit()) by (nonlinear_arith)
            requires
                n * q <= s < n * q + n,
                n >= 1,
                -S::limit() <= s <= S::limit(),
        ;
        S::measured_quotient(sum, S::from_count_spec(iterations));
        assert(q * n == n * q) by (nonlinear_arith);
    }
}

/// The strategy of an iteration counts as often as its number, or as the square of it if regrets are
/// discounted: later iterations count for more.
pub proof fn later_iterations_count_for_more<S: MeasuredScalar>(
    variant: CfrVariant,
    iteration: usize,
    later: usize,
)
    requires
        iteration < later,
        later * later * S::unit() <= S::limit(),
    ensures
        average_weight_spec::<S>(CfrVariant::CfrPlus, later).steps() == later
            * S::unit(),
        average_weight_spec::<S>(CfrVariant::DcfrPlus, later).steps() == later
            * later * S::unit(),
        average_weight_spec::<S>(variant, iteration).steps() < average_weight_spec::<S>(
            variant,
            later,
        ).steps(),
{
    lemma_counted::<S>(later);
    let (i, l, u) = (iteration as int, later as int, S::unit());
    S::measured_units();
    assert(i * i * u <= l * l * u && i * u < l * u && i * i * u < l * l * u) by (nonlinear_arith)
        requires
            0 <= i < l,
            u > 0,
    ;
    lemma_counted::<S>(iteration);
}

pub(crate) proof fn lemma_counted<S: MeasuredScalar>(iteration: usize)
    requires
        iteration * iteration * S::unit() <= S::limit(),
    ensures
        average_weight_spec::<S>(CfrVariant::CfrPlus, iteration).steps()
            == iteration * S::unit(),
        average_weight_spec::<S>(CfrVariant::DcfrPlus, iteration).steps()
            == iteration * iteration * S::unit(),
{
    S::measured_units();
    let (i, u) = (iteration as int, S::unit());
    assert(i * u <= i * i * u && i * i * u >= 0) by (nonlinear_arith)
        requires
            i >= 0,
            u > 0,
    ;
    S::measured_counts(0, iteration);
    let t = S::from_count_spec(iteration);
    assert((i * u) * (i * u) == (i * i * u) * u) by (nonlinear_arith);
    vstd::arithmetic::div_mod::lemma_fundamental_div_mod_converse(
        (i * u) * (i * u),
        u,
        i * i * u,
        0,
    );
    S::measured_product(t, t);
}

} // verus!
