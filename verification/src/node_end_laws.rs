//! What the ends of a tree with tables at every node are worth to a player, in whole numbers of steps.
use vstd::prelude::*;
use crate::cards::Card;
use crate::fold_weights::{
    are_unlike, is_blocked, last_match, same_places, total_weight, total_weights_add_up,
};
use crate::measure::MeasuredScalar;
use crate::node_setup::{outcome, payoff, runouts, NodeSetup};
use crate::node_terminal::{divided, payoff_sum};
use crate::payoff_laws::{lemma_met, lemma_weight, met_steps, weight_steps};
use crate::range::combo_fits;
use crate::terminal_cache::TerminalEvalCache;
use crate::tree::Player;

verus! {

impl<S: MeasuredScalar> NodeSetup<S> {
    /// A player who folds loses the pot to every hand of the other player that could be there, and wins as
    /// much if the other player folds. A hand that is on the board wins and loses nothing.
    pub proof fn node_folding_gives_up_the_pot(
        self,
        player: Player,
        board: Seq<Card>,
        pot: u32,
        reach: Seq<S>,
        i: int,
    )
        requires
            forall|j: int| 0 <= j < self.hands(player).len() ==> combo_fits(#[trigger] self.hands(player)[j]),
            forall|j: int|
                0 <= j < self.hands(player.other_spec()).len() ==> combo_fits(
                    #[trigger] self.hands(player.other_spec())[j],
                ),
            are_unlike(self.hands(player.other_spec())),
            self.hands(player.other_spec()).len() <= usize::MAX,
            reach.len() == self.hands(player.other_spec()).len(),
            forall|j: int| 0 <= j < reach.len() ==> (#[trigger] reach[j]).steps() >= 0,
            0 <= i < self.hands(player).len(),
            weight_steps(reach, reach.len()) * (pot + 1) <= S::limit(),
        ensures
            ({
                let (own, opponents) = (self.hands(player), self.hands(player.other_spec()));
                let stake = if is_blocked(own[i], board) {
                    0
                } else {
                    pot * met_steps(own[i], opponents, reach, board, opponents.len())
                };
                &&& stake >= 0
                &&& self.node_fold(board, pot, player, player, reach)[i].steps() == -stake
                &&& self.node_fold(board, pot, player.other_spec(), player, reach)[i].steps() == stake
            }),
    {
        S::measured_units();
        let (own, opponents) = (self.hands(player), self.hands(player.other_spec()));
        let unit = S::unit();
        let same = same_places(own, opponents);
        assert(combo_fits(own[i]));
        assert forall|j: int| 0 <= j < opponents.len() implies (#[trigger] opponents[j]).first
            != opponents[j].second by {
            assert(combo_fits(opponents[j]));
        }
        assert(same[i] == last_match(opponents, own[i].first, own[i].second, opponents.len()));
        let all = weight_steps(reach, reach.len());
        lemma_weight(reach, reach.len());
        assert(all <= S::limit()) by (nonlinear_arith)
            requires
                all * (pot + 1) <= S::limit(),
                all >= 0,
                pot >= 0,
        ;
        let chips = S::from_u32_spec(pot);
        S::measured_counts(pot, 0);
        if !is_blocked(own[i], board) {
            let weight = total_weight(own[i], opponents, reach, same[i], board);
            total_weights_add_up(own[i], opponents, reach, board);
            lemma_met(own[i], opponents, reach, board, opponents.len());
            let w = weight.steps();
            assert(0 <= w <= all);
            assert(0 <= pot * w <= S::limit()) by (nonlinear_arith)
                requires
                    0 <= w <= all,
                    all * (pot + 1) <= S::limit(),
                    pot >= 0,
            ;
            assert(0 <= pot * unit <= S::limit()) by (nonlinear_arith)
                requires
                    unit * 0x1_0000_0000 <= S::limit(),
                    0 <= pot < 0x1_0000_0000,
                    unit >= 2,
            ;
            assert(w * (pot * unit) == unit * (pot * w)) by (nonlinear_arith);
            assert(w * (-(pot * unit)) == unit * (-(pot * w))) by (nonlinear_arith);
            vstd::arithmetic::div_mod::lemma_div_multiples_vanish(pot * w, unit);
            vstd::arithmetic::div_mod::lemma_div_multiples_vanish(-(pot * w), unit);
            S::measured_sum(chips, chips);
            S::measured_product(weight, chips);
            S::measured_product(weight, chips.negate_spec());
        }
    }
}

/// Whether two hands of the players can be there on a finished board and the first is the stronger.
pub open spec fn beats_on(cache: TerminalEvalCache, player: Player, own: int, opponent: int) -> bool {
    let (mine, other) = match player {
        Player::Oop => (cache.oop_combo_indices@[own], cache.ip_combo_indices@[opponent]),
        Player::Ip => (cache.ip_combo_indices@[own], cache.oop_combo_indices@[opponent]),
    };
    &&& mine is Some
    &&& other is Some
    &&& !cache.prepared.combos_spec()[mine->0 as int].collides_spec(
        cache.prepared.combos_spec()[other->0 as int],
    )
    &&& cache.prepared.strengths_spec()[mine->0 as int]
        > cache.prepared.strengths_spec()[other->0 as int]
}

/// On how many of the first `n` finished boards a hand beats one of the other player.
pub open spec fn boards_beaten(
    caches: Seq<TerminalEvalCache>,
    player: Player,
    own: int,
    opponent: int,
    n: nat,
) -> nat
    decreases n,
{
    if n == 0 {
        0
    } else {
        boards_beaten(caches, player, own, opponent, (n - 1) as nat) + (if beats_on(
            caches[n - 1],
            player,
            own,
            opponent,
        ) {
            1nat
        } else {
            0
        })
    }
}

/// Over finished boards a hand gets one for each that it wins against a hand of the other player, and gives one
/// for each that it loses; what one player gets, the other gives.
pub proof fn payoffs_count_boards<S: MeasuredScalar>(
    caches: Seq<TerminalEvalCache>,
    own: int,
    opponent: int,
    n: nat,
)
    requires
        n <= caches.len(),
        n * S::unit() <= S::limit(),
    ensures
        payoff::<S>(caches, Player::Oop, own, opponent, n).steps() == (boards_beaten(
            caches,
            Player::Oop,
            own,
            opponent,
            n,
        ) - boards_won_back(caches, own, opponent, n)) * S::unit(),
        payoff::<S>(caches, Player::Ip, opponent, own, n).steps() == -payoff::<S>(
            caches,
            Player::Oop,
            own,
            opponent,
            n,
        ).steps(),
        boards_beaten(caches, Player::Oop, own, opponent, n) + boards_won_back(
            caches,
            own,
            opponent,
            n,
        ) <= n,
    decreases n,
{
    S::measured_units();
    let u = S::unit();
    if n > 0 {
        let m = (n - 1) as nat;
        assert(n * u == m * u + u) by (nonlinear_arith)
            requires
                n == m + 1,
        ;
        payoffs_count_boards::<S>(caches, own, opponent, m);
        let w = boards_beaten(caches, Player::Oop, own, opponent, m) as int;
        let l = boards_won_back(caches, own, opponent, m) as int;
        assert(-(m * u) <= (w - l) * u <= m * u) by (nonlinear_arith)
            requires
                w >= 0,
                l >= 0,
                w + l <= m,
                u >= 0,
        ;
        assert((w + 1 - l) * u == (w - l) * u + u) by (nonlinear_arith);
        assert((w - (l + 1)) * u == (w - l) * u - u) by (nonlinear_arith);
        let cache = caches[n - 1];
        let oop = payoff::<S>(caches, Player::Oop, own, opponent, m);
        let ip = payoff::<S>(caches, Player::Ip, opponent, own, m);
        let one = S::one_spec();
        S::measured_sum(one, one);
        S::measured_sum(oop, one);
        S::measured_sum(oop, one.negate_spec());
        S::measured_sum(oop, S::zero_spec());
        S::measured_sum(ip, one);
        S::measured_sum(ip, one.negate_spec());
        S::measured_sum(ip, S::zero_spec());
        match outcome::<S>(cache, own, opponent) {
            Some(value) => {},
            None => {},
        }
    } else {
        assert(0 * u == 0);
    }
}

/// On how many of the first `n` finished boards a hand of the player out of position is beaten by one of the
/// player in position.
pub open spec fn boards_won_back(
    caches: Seq<TerminalEvalCache>,
    own: int,
    opponent: int,
    n: nat,
) -> nat
    decreases n,
{
    if n == 0 {
        0
    } else {
        let cache = caches[n - 1];
        let (mine, other) = (cache.oop_combo_indices@[own], cache.ip_combo_indices@[opponent]);
        let lost = mine is Some && other is Some
            && !cache.prepared.combos_spec()[mine->0 as int].collides_spec(
            cache.prepared.combos_spec()[other->0 as int],
        ) && cache.prepared.strengths_spec()[mine->0 as int]
            < cache.prepared.strengths_spec()[other->0 as int];
        boards_won_back(caches, own, opponent, (n - 1) as nat) + (if lost {
            1nat
        } else {
            0
        })
    }
}

/// What a hand gets from the first `n` of the other player's hands off the flop, in steps: what it gets from
/// each, as often as that hand is there.
pub open spec fn paid_steps<S: MeasuredScalar>(row: Seq<int>, reach: Seq<S>, live: Seq<usize>, n: nat) -> int
    decreases n,
{
    if n == 0 {
        0
    } else {
        paid_steps(row, reach, live, (n - 1) as nat) + row[live[n - 1] as int]
            * reach[live[n - 1] as int].steps()
    }
}

/// Hands that are worth so many whole boards each are worth them together, each as often as it is there.
pub proof fn hands_pay_as_often_as_they_are_there<S: MeasuredScalar>(
    row: Seq<S>,
    boards: Seq<int>,
    reach: Seq<S>,
    live: Seq<usize>,
    bound: int,
    n: nat,
)
    requires
        n <= live.len(),
        row.len() == boards.len() == reach.len(),
        forall|k: int| 0 <= k < n ==> (#[trigger] live[k]) < row.len(),
        forall|j: int| 0 <= j < row.len() ==> (#[trigger] row[j]).steps() == boards[j] * S::unit(),
        forall|k: int|
            0 <= k < n ==> -bound <= boards[#[trigger] live[k] as int] * reach[live[k] as int].steps()
                <= bound,
        bound >= 0,
        bound * (n + 1) <= S::limit(),
    ensures
        payoff_sum(row, reach, live, n).steps() == paid_steps(boards, reach, live, n),
        -bound * n <= paid_steps(boards, reach, live, n) <= bound * n,
    decreases n,
{
    S::measured_units();
    let unit = S::unit();
    if n > 0 {
        let m = (n - 1) as nat;
        assert(bound * (m + 1) <= bound * (n + 1) && bound * n == bound * m + bound && -bound * n
            == -bound * m - bound && bound * (n + 1) == bound * m + bound + bound) by (nonlinear_arith)
            requires
                bound >= 0,
                n == m + 1,
        ;
        assert(bound * m >= 0) by (nonlinear_arith)
            requires
                bound >= 0,
        ;
        assert(-bound * m == -(bound * m)) by (nonlinear_arith);
        hands_pay_as_often_as_they_are_there(row, boards, reach, live, bound, m);
        let j = live[n - 1] as int;
        assert(live[n - 1] < row.len());
        let (b, r) = (boards[j], reach[j].steps());
        assert(-bound <= b * r <= bound);
        assert((b * unit) * r == unit * (b * r)) by (nonlinear_arith);
        vstd::arithmetic::div_mod::lemma_div_multiples_vanish(b * r, unit);
        S::measured_product(row[j], reach[j]);
        S::measured_sum(payoff_sum(row, reach, live, m), row[j].times_spec(reach[j]));
    } else {
        assert(bound * 0 == 0 && -bound * 0 == 0);
    }
}

/// A hand meets as many finished boards as there are ways to draw the cards to come from those that neither it
/// nor the board holds.
pub proof fn runouts_are_draws<S: MeasuredScalar>(cards: nat)
    requires
        3 <= cards <= 5,
    ensures
        ({
            let left = 52 - cards - 2;
            runouts::<S>(cards).steps() == S::unit() * (if cards == 3 {
                left * (left - 1) / 2
            } else if cards == 4 {
                left
            } else {
                1
            })
        }),
{
    S::measured_units();
    S::measured_counts(1081, 0);
    S::measured_counts(46, 0);
    let u = S::unit();
    let left = 52 - cards - 2;
    if cards == 3 {
        assert(left == 47);
        assert(left * (left - 1) == 2162) by (nonlinear_arith)
            requires
                left == 47,
        ;
        assert(1081 * u == u * (left * (left - 1) / 2)) by (nonlinear_arith)
            requires
                left * (left - 1) == 2162,
        ;
    } else if cards == 4 {
        assert(46 * u == u * left) by (nonlinear_arith)
            requires
                left == 46,
        ;
    } else {
        assert(u * 1 == u) by (nonlinear_arith);
    }
}

/// Values over so many boards are those of one board on average, rounded down.
pub proof fn divided_values_are_averages<S: MeasuredScalar>(values: Seq<S>, divisor: S, count: int, i: int)
    requires
        0 <= i < values.len(),
        count > 0,
        divisor.steps() == count * S::unit(),
        -S::limit() <= values[i].steps() <= S::limit(),
    ensures
        divided(values, divisor).len() == values.len(),
        divided(values, divisor)[i].steps() * count <= values[i].steps() < divided(
            values,
            divisor,
        )[i].steps() * count + count,
{
    S::measured_units();
    let (n, u, s) = (count, S::unit(), values[i].steps());
    let d = n * u;
    assert(d > 0) by (nonlinear_arith)
        requires
            d == n * u,
            n > 0,
            u > 0,
    ;
    vstd::arithmetic::div_mod::lemma_fundamental_div_mod(s * u, d);
    let q = (s * u) / d;
    let rest = (s * u) % d;
    assert(n * q <= s < n * q + n) by (nonlinear_arith)
        requires
            s * u == d * q + rest,
            0 <= rest < d,
            d == n * u,
            u > 0,
    ;
    assert(-S::limit() <= q <= S::limit()) by (nonlinear_arith)
        requires
            n * q <= s < n * q + n,
            n >= 1,
            -S::limit() <= s <= S::limit(),
    ;
    S::measured_quotient(values[i], divisor);
    assert(q * n == n * q) by (nonlinear_arith);
}

} // verus!
