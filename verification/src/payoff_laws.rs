//! What finished hands pay, in whole numbers of steps: the stronger hand wins from every hand that it beats
//! and loses to every hand that beats it; a player who folds loses the pot to every hand that could be there.
use vstd::prelude::*;
use crate::cards::Card;
use crate::fold_weights::{
    are_unlike, collide, is_blocked, last_match, met_part, total_weight, total_weights_add_up,
};
use crate::measure::{pair_in_steps, MeasuredScalar};
use crate::range::{combo_fits, ComboWeight};
use crate::real_setup::RealSetup;
use crate::sums::sum_below;
use crate::terminal_board::PreparedTerminalBoard;
use crate::terminal_cache::{board_added, finished, SideSums};
use crate::terminal_cfv::payoff;
use crate::terminal_laws::prefix_blocker_matches_bruteforce;
use crate::tree::Player;

verus! {

/// The first `n` numbers added up, in steps.
pub open spec fn weight_steps<S: MeasuredScalar>(reach: Seq<S>, n: nat) -> int
    decreases n,
{
    if n == 0 {
        0
    } else {
        weight_steps(reach, (n - 1) as nat) + reach[n - 1].steps()
    }
}

/// The reach of the hands among the first `n` of a board that share no card with a hand and that it beats, or
/// that beat it.
pub open spec fn decided_steps<S: MeasuredScalar>(
    board: &PreparedTerminalBoard,
    reach: Seq<S>,
    hero: int,
    wins: bool,
    n: nat,
) -> int
    decreases n,
{
    if n == 0 {
        0
    } else {
        let front = decided_steps(board, reach, hero, wins, (n - 1) as nat);
        let mine = board.strengths_spec()[hero];
        let other = board.strengths_spec()[n - 1];
        if !board.combos_spec()[hero].collides_spec(board.combos_spec()[n - 1]) && (if wins {
            mine > other
        } else {
            mine < other
        }) {
            front + reach[n - 1].steps()
        } else {
            front
        }
    }
}

proof fn lemma_direct<S: MeasuredScalar>(
    board: &PreparedTerminalBoard,
    reach: Seq<S>,
    hero: int,
    n: nat,
)
    requires
        n <= reach.len(),
        forall|i: int| 0 <= i < reach.len() ==> (#[trigger] reach[i]).steps() >= 0,
        weight_steps(reach, n) <= S::limit(),
    ensures
        board.direct_value(reach, hero, n).steps() == decided_steps(board, reach, hero, true, n)
            - decided_steps(board, reach, hero, false, n),
        0 <= decided_steps(board, reach, hero, true, n),
        0 <= decided_steps(board, reach, hero, false, n),
        decided_steps(board, reach, hero, true, n) + decided_steps(board, reach, hero, false, n)
            <= weight_steps(reach, n),
    decreases n,
{
    S::measured_units();
    if n > 0 {
        assert(reach[n - 1].steps() >= 0);
        lemma_direct(board, reach, hero, (n - 1) as nat);
        let share = reach[n - 1];
        let pay = payoff::<S>(board.strengths_spec()[hero], board.strengths_spec()[n - 1]);
        S::times_unit(share);
        S::measured_sum(share, share);
        pair_in_steps(
            board.direct_value(reach, hero, (n - 1) as nat),
            share.times_spec(pay),
        );
    }
}

/// On a finished board a hand wins the reach of every hand that it beats and loses that of every hand that
/// beats it, of those that share no card with it; by pairs and by prefix sums.
pub proof fn stronger_hands_win<S: MeasuredScalar>(
    board: &PreparedTerminalBoard,
    reach: Seq<S>,
    hero: int,
)
    requires
        board.wf(),
        0 <= hero < board.count(),
        reach.len() == board.count(),
        forall|i: int| 0 <= i < reach.len() ==> (#[trigger] reach[i]).steps() >= 0,
        weight_steps(reach, reach.len()) <= S::limit(),
    ensures
        board.side_value(reach, hero).steps() == decided_steps(
            board,
            reach,
            hero,
            true,
            reach.len(),
        ) - decided_steps(board, reach, hero, false, reach.len()),
        board.direct_value(reach, hero, board.count()) == board.side_value(reach, hero),
        board.direct_loss(reach, hero, board.count()) == board.side_value(reach, hero),
        (forall|i: int|
            0 <= i < board.count() ==> #[trigger] board.strengths_spec()[i]
                <= board.strengths_spec()[hero]) ==> board.side_value(reach, hero).steps() >= 0,
        (forall|i: int|
            0 <= i < board.count() ==> #[trigger] board.strengths_spec()[i]
                >= board.strengths_spec()[hero]) ==> board.side_value(reach, hero).steps() <= 0,
{
    lemma_direct(board, reach, hero, reach.len());
    prefix_blocker_matches_bruteforce(board, reach, hero);
    if forall|i: int|
        0 <= i < board.count() ==> #[trigger] board.strengths_spec()[i]
            <= board.strengths_spec()[hero] {
        lemma_none(board, reach, hero, false, reach.len());
    }
    if forall|i: int|
        0 <= i < board.count() ==> #[trigger] board.strengths_spec()[i]
            >= board.strengths_spec()[hero] {
        lemma_none(board, reach, hero, true, reach.len());
    }
}

proof fn lemma_none<S: MeasuredScalar>(
    board: &PreparedTerminalBoard,
    reach: Seq<S>,
    hero: int,
    wins: bool,
    n: nat,
)
    requires
        n <= board.count(),
        forall|i: int|
            0 <= i < board.count() ==> if wins {
                #[trigger] board.strengths_spec()[i] >= board.strengths_spec()[hero]
            } else {
                board.strengths_spec()[i] <= board.strengths_spec()[hero]
            },
    ensures
        decided_steps(board, reach, hero, wins, n) == 0,
    decreases n,
{
    if n > 0 {
        lemma_none(board, reach, hero, wins, (n - 1) as nat);
        assert(board.strengths_spec()[n - 1] == board.strengths_spec()[n - 1]);
    }
}

/// The reach of the first `n` opponents that a hand can be up against, in steps.
pub open spec fn met_steps<S: MeasuredScalar>(
    own: ComboWeight<S>,
    opponents: Seq<ComboWeight<S>>,
    reach: Seq<S>,
    board: Seq<Card>,
    n: nat,
) -> int
    decreases n,
{
    if n == 0 {
        0
    } else {
        let front = met_steps(own, opponents, reach, board, (n - 1) as nat);
        if is_blocked(opponents[n - 1], board) || collide(own, opponents[n - 1]) {
            front
        } else {
            front + reach[n - 1].steps()
        }
    }
}

pub(crate) proof fn lemma_met<S: MeasuredScalar>(
    own: ComboWeight<S>,
    opponents: Seq<ComboWeight<S>>,
    reach: Seq<S>,
    board: Seq<Card>,
    n: nat,
)
    requires
        n <= opponents.len() == reach.len(),
        forall|i: int| 0 <= i < reach.len() ==> (#[trigger] reach[i]).steps() >= 0,
        weight_steps(reach, n) <= S::limit(),
    ensures
        sum_below(met_part(own, opponents, reach, board), n).steps() == met_steps(
            own,
            opponents,
            reach,
            board,
            n,
        ),
        0 <= met_steps(own, opponents, reach, board, n) <= weight_steps(reach, n),
    decreases n,
{
    S::measured_units();
    if n > 0 {
        assert(reach[n - 1].steps() >= 0);
        lemma_met(own, opponents, reach, board, (n - 1) as nat);
        let part = met_part(own, opponents, reach, board);
        S::measured_sum(sum_below(part, (n - 1) as nat), part(n - 1));
    }
}

impl<S: MeasuredScalar> RealSetup<S> {
    /// The hands of a player and those of the other.
    pub open spec fn facing(self, player: Player) -> (Seq<ComboWeight<S>>, Seq<ComboWeight<S>>) {
        match player {
            Player::Oop => (self.oop(), self.ip()),
            Player::Ip => (self.ip(), self.oop()),
        }
    }

    /// A player who folds loses the pot to every hand of the other player that could be there, and wins as
    /// much if the other player folds. A hand that is on the board wins and loses nothing.
    pub proof fn folding_gives_up_the_pot(
        self,
        player: Player,
        board: Seq<Card>,
        pot: u32,
        oop_reach: Seq<S>,
        ip_reach: Seq<S>,
        i: int,
    )
        requires
            self.wf(),
            are_unlike(self.oop()),
            are_unlike(self.ip()),
            oop_reach.len() == self.oop().len(),
            ip_reach.len() == self.ip().len(),
            forall|j: int| 0 <= j < oop_reach.len() ==> (#[trigger] oop_reach[j]).steps() >= 0,
            forall|j: int| 0 <= j < ip_reach.len() ==> (#[trigger] ip_reach[j]).steps() >= 0,
            0 <= i < self.facing(player).0.len(),
            weight_steps(oop_reach, oop_reach.len()) * (pot + 1) <= S::limit(),
            weight_steps(ip_reach, ip_reach.len()) * (pot + 1) <= S::limit(),
        ensures
            ({
                let (own, opponents) = self.facing(player);
                let reach = match player {
                    Player::Oop => ip_reach,
                    Player::Ip => oop_reach,
                };
                let other = match player {
                    Player::Oop => Player::Ip,
                    Player::Ip => Player::Oop,
                };
                let stake = if is_blocked(own[i], board) {
                    0
                } else {
                    pot * met_steps(own[i], opponents, reach, board, opponents.len())
                };
                &&& stake >= 0
                &&& self.fold_spec(board, pot, player, oop_reach, ip_reach).side(player)[i].steps()
                    == -stake
                &&& self.fold_spec(board, pot, other, oop_reach, ip_reach).side(player)[i].steps()
                    == stake
            }),
    {
        S::measured_units();
        let (own, opponents) = self.facing(player);
        let reach = match player {
            Player::Oop => ip_reach,
            Player::Ip => oop_reach,
        };
        let unit = S::unit();
        let same = match player {
            Player::Oop => self.oop_same_ip_combo_indices@,
            Player::Ip => self.ip_same_oop_combo_indices@,
        };
        assert(combo_fits(own[i]));
        assert forall|j: int| 0 <= j < opponents.len() implies (#[trigger] opponents[j]).first
            != opponents[j].second by {
            assert(combo_fits(opponents[j]));
        }
        assert(same[i] == last_match(opponents, own[i].first, own[i].second, opponents.len()));
        let all = weight_steps(reach, reach.len());
        lemma_weight(reach, reach.len());
        assert(all <= S::limit()) by (nonlinear_arith)
            requires
                all * (pot + 1) <= S::limit(),
                all >= 0,
                pot >= 0,
        ;
        let weight = total_weight(own[i], opponents, reach, same[i], board);
        let chips = S::from_u32_spec(pot);
        S::measured_counts(pot, 0);
        if !is_blocked(own[i], board) {
            total_weights_add_up(own[i], opponents, reach, board);
            lemma_met(own[i], opponents, reach, board, opponents.len());
        }
        let w = weight.steps();
        assert(0 <= w <= all);
        assert(0 <= pot * w <= S::limit()) by (nonlinear_arith)
            requires
                0 <= w <= all,
                all * (pot + 1) <= S::limit(),
                pot >= 0,
        ;
        assert(pot * unit <= S::limit()) by (nonlinear_arith)
            requires
                unit * 0x1_0000_0000 <= S::limit(),
                pot < 0x1_0000_0000,
                unit >= 2,
        ;
        assert((pot * unit) * w == unit * (pot * w)) by (nonlinear_arith);
        assert((-(pot * unit)) * w == unit * (-(pot * w))) by (nonlinear_arith);
        assert(pot * unit >= 0) by (nonlinear_arith)
            requires
                unit >= 2,
                pot >= 0,
        ;
        vstd::arithmetic::div_mod::lemma_div_multiples_vanish(pot * w, unit);
        vstd::arithmetic::div_mod::lemma_div_multiples_vanish(-(pot * w), unit);
        S::measured_sum(chips, chips);
        S::measured_product(chips, weight);
        S::measured_product(chips.negate_spec(), weight);
        assert(w == 0 ==> pot * w == 0) by (nonlinear_arith);
    }
}

pub(crate) proof fn lemma_weight<S: MeasuredScalar>(reach: Seq<S>, n: nat)
    requires
        n <= reach.len(),
        forall|i: int| 0 <= i < reach.len() ==> (#[trigger] reach[i]).steps() >= 0,
    ensures
        weight_steps(reach, n) >= 0,
    decreases n,
{
    if n > 0 {
        assert(reach[n - 1].steps() >= 0);
        lemma_weight(reach, (n - 1) as nat);
    }
}

/// A board more adds to the sums of a hand that is not on it what the board pays, as often as there are chips in
/// the pot, and counts one board more; a hand on the board keeps its sums.
pub proof fn boards_add_what_they_pay<S: MeasuredScalar>(
    sums: SideSums<S>,
    values: Seq<S>,
    indices: Seq<Option<usize>>,
    map: Seq<usize>,
    pot: u32,
    s: int,
)
    requires
        0 <= s < sums.values.len(),
        sums.counts.len() == sums.values.len(),
        -S::limit() / 2 <= sums.values[s].steps() <= S::limit() / 2,
        0 <= sums.counts[s].steps() <= S::limit() / 2,
        -S::limit() / 4 <= pot * values[map[s] as int].steps() <= S::limit() / 4,
    ensures
        ({
            let after = board_added(sums, Some(values), indices, map, S::from_u32_spec(pot));
            if indices[map[s] as int] is Some {
                &&& after.values[s].steps() == sums.values[s].steps() + pot
                    * values[map[s] as int].steps()
                &&& after.counts[s].steps() == sums.counts[s].steps() + S::unit()
            } else {
                after.values[s] == sums.values[s] && after.counts[s] == sums.counts[s]
            }
        }),
{
    S::measured_units();
    S::measured_counts(pot, 0);
    let unit = S::unit();
    let value = values[map[s] as int];
    let v = value.steps();
    assert(v * (pot * unit) == unit * (pot * v)) by (nonlinear_arith);
    vstd::arithmetic::div_mod::lemma_div_multiples_vanish(pot * v, unit);
    S::measured_product(value, S::from_u32_spec(pot));
    S::measured_sum(sums.values[s], value.times_spec(S::from_u32_spec(pot)));
    assert(2 * unit <= S::limit()) by (nonlinear_arith)
        requires
            unit * 0x1_0000_0000 <= S::limit(),
            unit >= 2,
    ;
    S::measured_sum(sums.counts[s], S::one_spec());
}

/// Over so many boards a hand is worth the average of what they paid, rounded down.
pub proof fn boards_are_averaged<S: MeasuredScalar>(sums: SideSums<S>, s: int, boards: nat)
    requires
        0 <= s < sums.values.len(),
        boards > 0,
        sums.counts[s].steps() == boards * S::unit(),
        -S::limit() <= sums.values[s].steps() <= S::limit(),
    ensures
        finished(sums)[s].steps() == sums.values[s].steps() / boards as int,
{
    S::measured_units();
    let unit = S::unit();
    let v = sums.values[s].steps();
    let n = boards as int;
    S::measured_order(sums.counts[s], S::zero_spec());
    assert(n * unit > 0) by (nonlinear_arith)
        requires
            n > 0,
            unit >= 2,
    ;
    let q = v / n;
    let rest = v % n;
    vstd::arithmetic::div_mod::lemma_fundamental_div_mod(v, n);
    assert((v * unit) / (n * unit) == q) by {
        assert(v * unit == (n * unit) * q + rest * unit) by (nonlinear_arith)
            requires
                v == n * q + rest,
        ;
        assert(0 <= rest * unit < n * unit) by (nonlinear_arith)
            requires
                0 <= rest < n,
                unit >= 2,
        ;
        vstd::arithmetic::div_mod::lemma_fundamental_div_mod_converse(
            v * unit,
            n * unit,
            q,
            rest * unit,
        );
    }
    assert(-S::limit() <= q <= S::limit()) by (nonlinear_arith)
        requires
            v == n * q + rest,
            0 <= rest < n,
            n >= 1,
            -S::limit() <= v <= S::limit(),
            S::limit() >= 0,
    ;
    S::measured_quotient(sums.values[s], sums.counts[s]);
}

} // verus!
