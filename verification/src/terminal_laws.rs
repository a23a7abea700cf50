//! The fast and the direct computation of terminal values agree.
use vstd::prelude::*;
use crate::balance::{earned, earned_from, lost_to, pairs_cancel, products_agree, times_laws};
use crate::evaluator::comparison;
use crate::scalar::{ExactScalar, Scalar};
use crate::sums::{
    negate_plus, negate_twice, positions, sum_below, sum_below_negate, sum_below_plus,
    sum_below_same, sum_below_tail, sum_over_list,
};
use crate::terminal_board::{blockers_facts, bounds_split, is_order, PreparedTerminalBoard};
use crate::terminal_cfv::{less_all, payoff, plus_all, prefix_sum};

verus! {

/// The part of a reach that is weaker, not stronger, or stronger than the hero.
spec fn weaker_part<S: Scalar>(strengths: Seq<u64>, reach: Seq<S>, hero: int) -> spec_fn(int) -> S {
    |v: int| if strengths[v] < strengths[hero] { reach[v] } else { S::zero_spec() }
}

spec fn not_stronger_part<S: Scalar>(strengths: Seq<u64>, reach: Seq<S>, hero: int) -> spec_fn(int) -> S {
    |v: int| if strengths[v] <= strengths[hero] { reach[v] } else { S::zero_spec() }
}

spec fn stronger_part<S: Scalar>(strengths: Seq<u64>, reach: Seq<S>, hero: int) -> spec_fn(int) -> S {
    |v: int| if strengths[v] > strengths[hero] { reach[v] } else { S::zero_spec() }
}

/// What a combo wins from each opponent combo, card collisions aside.
spec fn won_from<S: Scalar>(strengths: Seq<u64>, reach: Seq<S>, hero: int) -> spec_fn(int) -> S {
    |v: int|
        if strengths[v] < strengths[hero] {
            reach[v]
        } else if strengths[v] > strengths[hero] {
            reach[v].negate_spec()
        } else {
            S::zero_spec()
        }
}

/// The reach of the combos on a list.
spec fn listed_part<S: Scalar>(list: Seq<u16>, reach: Seq<S>) -> spec_fn(int) -> S {
    |v: int| if list.contains(v as u16) { reach[v] } else { S::zero_spec() }
}

proof fn lemma_prefix<S: ExactScalar>(
    order: Seq<usize>,
    strengths: Seq<u64>,
    reach: Seq<S>,
    part: spec_fn(int) -> S,
    k: nat,
)
    requires
        is_order(order, strengths),
        reach.len() == strengths.len(),
        order.len() <= 0xffff,
        k <= order.len(),
        forall|i: int| 0 <= i < k ==> part(#[trigger] order[i] as int) == reach[order[i] as int],
        forall|i: int|
            k <= i < order.len() ==> part(#[trigger] order[i] as int) == S::zero_spec(),
    ensures
        prefix_sum(order, reach, k) == sum_below(part, order.len()),
{
    let n = order.len();
    let list = order.map(|i: int, v: usize| v as int);
    assert(positions(list, n)) by {
        assert forall|i: int, j: int| 0 <= i < j < list.len() implies #[trigger] list[i]
            != #[trigger] list[j] by {
            assert(order[i] != order[j]);
        }
        assert forall|i: int| 0 <= i < list.len() implies 0 <= #[trigger] list[i] < n by {
            assert(order[i] < strengths.len());
        }
    }
    let along = |i: int| part(list[i]);
    let held = |v: int| if list.contains(v) { part(v) } else { S::zero_spec() };
    sum_over_list(list, part, n);
    assert forall|v: int| 0 <= v < n implies #[trigger] held(v) == part(v) by {
        assert(order.contains(v as usize));
        let i = choose|i: int| 0 <= i < order.len() && order[i] == v as usize;
        assert(list[i] == v);
    }
    sum_below_same(held, part, n);
    assert forall|i: int| k <= i < n implies #[trigger] along(i) == S::zero_spec() by {
        assert(part(order[i] as int) == S::zero_spec());
    }
    sum_below_tail(along, k, n);
    lemma_prefix_sum(order, reach, along, k);
}

proof fn lemma_prefix_sum<S: ExactScalar>(
    order: Seq<usize>,
    reach: Seq<S>,
    along: spec_fn(int) -> S,
    k: nat,
)
    requires
        k <= order.len(),
        forall|i: int| 0 <= i < k ==> #[trigger] along(i) == reach[order[i] as int],
    ensures
        prefix_sum(order, reach, k) == sum_below(along, k),
    decreases k,
{
    if k > 0 {
        lemma_prefix_sum(order, reach, along, (k - 1) as nat);
        assert(along(k - 1) == reach[order[k - 1] as int]);
    }
}

/// (a + b) - a == b.
proof fn lemma_take_back<S: ExactScalar>(a: S, b: S)
    ensures
        a.plus_spec(b).minus_spec(a) == b,
{
    S::minus_is_plus_negation(a.plus_spec(b), a);
    S::plus_commutes(a, b);
    S::plus_associates(b, a, a.negate_spec());
    S::plus_negation(a);
    S::plus_zero(b);
}

proof fn lemma_less_all<S: ExactScalar>(value: S, list: Seq<u16>, reach: Seq<S>, k: nat)
    requires
        k <= list.len(),
    ensures
        less_all(value, list, reach, k) == value.minus_spec(
            sum_below(|i: int| reach[list[i] as int], k),
        ),
    decreases k,
{
    let f = |i: int| reach[list[i] as int];
    S::minus_is_plus_negation(value, sum_below(f, k));
    if k == 0 {
        negate_twice(S::zero_spec());
        S::plus_zero(value);
    } else {
        lemma_less_all(value, list, reach, (k - 1) as nat);
        let s = sum_below(f, (k - 1) as nat);
        S::minus_is_plus_negation(value, s);
        S::minus_is_plus_negation(value.minus_spec(s), f(k - 1));
        negate_plus(s, f(k - 1));
        S::plus_associates(value, s.negate_spec(), f(k - 1).negate_spec());
    }
}

proof fn lemma_plus_all<S: ExactScalar>(value: S, list: Seq<u16>, reach: Seq<S>, k: nat)
    requires
        k <= list.len(),
    ensures
        plus_all(value, list, reach, k) == value.plus_spec(
            sum_below(|i: int| reach[list[i] as int], k),
        ),
    decreases k,
{
    let f = |i: int| reach[list[i] as int];
    if k == 0 {
        S::plus_zero(value);
    } else {
        lemma_plus_all(value, list, reach, (k - 1) as nat);
        S::plus_associates(value, sum_below(f, (k - 1) as nat), f(k - 1));
    }
}

/// The sum over a list of different combos.
proof fn lemma_listed<S: ExactScalar>(list: Seq<u16>, reach: Seq<S>, n: nat)
    requires
        n <= 0xffff,
        forall|i: int| 0 <= i < list.len() ==> (#[trigger] list[i]) < n,
        forall|i: int, j: int|
            0 <= i < j < list.len() ==> #[trigger] list[i] != #[trigger] list[j],
    ensures
        sum_below(|i: int| reach[list[i] as int], list.len()) == sum_below(
            listed_part(list, reach),
            n,
        ),
{
    let ints = list.map(|i: int, v: u16| v as int);
    assert(positions(ints, n)) by {
        assert forall|i: int, j: int| 0 <= i < j < ints.len() implies #[trigger] ints[i]
            != #[trigger] ints[j] by {
            assert(list[i] != list[j]);
        }
    }
    let f = |v: int| reach[v];
    sum_over_list(ints, f, n);
    let held = |v: int| if ints.contains(v) { f(v) } else { S::zero_spec() };
    assert forall|v: int| 0 <= v < n implies #[trigger] held(v) == listed_part(list, reach)(v) by {
        if ints.contains(v) {
            let i = choose|i: int| 0 <= i < ints.len() && ints[i] == v;
            assert(list[i] == v as u16);
        }
        if list.contains(v as u16) {
            let i = choose|i: int| 0 <= i < list.len() && list[i] == v as u16;
            assert(ints[i] == v);
        }
    }
    sum_below_same(held, listed_part(list, reach), n);
    sum_below_same(
        |i: int| reach[list[i] as int],
        |i: int| f(ints[i]),
        list.len(),
    );
}

/// The prefix sums without corrections.
proof fn lemma_base<S: ExactScalar>(board: &PreparedTerminalBoard, reach: Seq<S>, hero: int)
    requires
        board.wf(),
        0 <= hero < board.count(),
        reach.len() == board.count(),
    ensures
        prefix_sum(board.order_spec(), reach, board.bounds_spec(hero).0 as nat).minus_spec(
            prefix_sum(board.order_spec(), reach, board.order_spec().len()).minus_spec(
                prefix_sum(board.order_spec(), reach, board.bounds_spec(hero).1 as nat),
            ),
        ) == sum_below(won_from(board.strengths_spec(), reach, hero), board.count()),
{
    board.wf_facts();
    let n = board.count();
    let order = board.order_spec();
    let s = board.strengths_spec();
    let bounds = board.bounds_spec(hero);
    assert(bounds_split(order, s, hero, board.bounds_spec(hero)));
    let weak = weaker_part(s, reach, hero);
    let even = not_stronger_part(s, reach, hero);
    let strong = stronger_part(s, reach, hero);
    let all = |v: int| reach[v];
    let won = won_from(s, reach, hero);
    lemma_prefix(order, s, reach, weak, bounds.0 as nat);
    lemma_prefix(order, s, reach, even, bounds.1 as nat);
    lemma_prefix(order, s, reach, all, n);
    let sum = |v: int| even(v).plus_spec(strong(v));
    sum_below_plus(even, strong, n);
    assert forall|v: int| 0 <= v < n implies #[trigger] sum(v) == all(v) by {
        S::plus_zero(reach[v]);
        S::plus_commutes(S::zero_spec(), reach[v]);
    }
    sum_below_same(sum, all, n);
    lemma_take_back(sum_below(even, n), sum_below(strong, n));
    let lost = |v: int| strong(v).negate_spec();
    let net = |v: int| weak(v).plus_spec(lost(v));
    sum_below_negate(strong, n);
    sum_below_plus(weak, lost, n);
    S::minus_is_plus_negation(sum_below(weak, n), sum_below(strong, n));
    assert forall|v: int| 0 <= v < n implies #[trigger] net(v) == won(v) by {
        negate_twice(S::zero_spec());
        S::plus_zero(reach[v]);
        S::plus_zero(S::zero_spec());
        S::plus_zero(reach[v].negate_spec());
        S::plus_commutes(S::zero_spec(), reach[v].negate_spec());
    }
    sum_below_same(net, won, n);
}

/// What a combo wins from each opponent combo that it shares no card with.
spec fn fairly_won_from<S: Scalar>(board: &PreparedTerminalBoard, reach: Seq<S>, hero: int) -> spec_fn(
    int,
) -> S {
    |v: int|
        if board.combos_spec()[hero].collides_spec(board.combos_spec()[v]) {
            S::zero_spec()
        } else {
            won_from(board.strengths_spec(), reach, hero)(v)
        }
}

proof fn lemma_side_value<S: ExactScalar>(board: &PreparedTerminalBoard, reach: Seq<S>, hero: int)
    requires
        board.wf(),
        0 <= hero < board.count(),
        reach.len() == board.count(),
    ensures
        board.side_value(reach, hero) == sum_below(
            fairly_won_from(board, reach, hero),
            board.count(),
        ),
{
    board.wf_facts();
    let n = board.count();
    let s = board.strengths_spec();
    let combos = board.combos_spec();
    lemma_base(board, reach, hero);
    let weaker = board.weaker_spec(hero);
    let stronger = board.stronger_spec(hero);
    blockers_facts(combos, s, hero, -1);
    blockers_facts(combos, s, hero, 1);
    let won = won_from(s, reach, hero);
    let base = sum_below(won, n);
    lemma_less_all(base, weaker, reach, weaker.len());
    lemma_listed(weaker, reach, n);
    lemma_listed(stronger, reach, n);
    let bw = listed_part(weaker, reach);
    let bs = listed_part(stronger, reach);
    let corrected = base.minus_spec(sum_below(bw, n));
    lemma_plus_all(corrected, stronger, reach, stronger.len());
    let back = |v: int| bw(v).negate_spec();
    let half = |v: int| won(v).plus_spec(back(v));
    let whole = |v: int| half(v).plus_spec(bs(v));
    sum_below_negate(bw, n);
    S::minus_is_plus_negation(base, sum_below(bw, n));
    sum_below_plus(won, back, n);
    sum_below_plus(half, bs, n);
    let fair = fairly_won_from(board, reach, hero);
    assert forall|v: int| 0 <= v < n implies #[trigger] whole(v) == fair(v) by {
        assert(weaker.contains(v as u16) == (v != hero && combos[hero].collides_spec(combos[v])
            && comparison(s[v] as int, s[hero] as int) == -1));
        assert(stronger.contains(v as u16) == (v != hero && combos[hero].collides_spec(combos[v])
            && comparison(s[v] as int, s[hero] as int) == 1));
        negate_twice(S::zero_spec());
        negate_twice(reach[v]);
        S::plus_zero(won(v));
        S::plus_zero(S::zero_spec());
        S::plus_negation(reach[v]);
        S::plus_commutes(reach[v], reach[v].negate_spec());
    }
    sum_below_same(whole, fair, n);
}

proof fn lemma_direct_value<S: ExactScalar>(
    board: &PreparedTerminalBoard,
    reach: Seq<S>,
    hero: int,
    n: nat,
)
    requires
        n <= board.count(),
        reach.len() == board.count(),
    ensures
        board.direct_value(reach, hero, n) == sum_below(fairly_won_from(board, reach, hero), n),
    decreases n,
{
    if n > 0 {
        lemma_direct_value(board, reach, hero, (n - 1) as nat);
        S::plus_zero(board.direct_value(reach, hero, (n - 1) as nat));
        S::times_unit(reach[n - 1]);
    }
}

proof fn lemma_direct_loss<S: ExactScalar>(
    board: &PreparedTerminalBoard,
    reach: Seq<S>,
    villain: int,
    n: nat,
)
    requires
        n <= board.count(),
        reach.len() == board.count(),
    ensures
        board.direct_loss(reach, villain, n) == sum_below(
            fairly_won_from(board, reach, villain),
            n,
        ),
    decreases n,
{
    if n > 0 {
        lemma_direct_loss(board, reach, villain, (n - 1) as nat);
        let front = board.direct_loss(reach, villain, (n - 1) as nat);
        S::plus_zero(front);
        S::times_unit(reach[n - 1]);
        negate_twice(reach[n - 1]);
        S::minus_is_plus_negation(
            front,
            reach[n - 1].times_spec(
                payoff(board.strengths_spec()[n - 1], board.strengths_spec()[villain]),
            ),
        );
    }
}

/// Over exact numbers the values by prefix sums are the values taken pair by pair, for the hero and for
/// the villain.
pub proof fn prefix_blocker_matches_bruteforce<S: ExactScalar>(
    board: &PreparedTerminalBoard,
    reach: Seq<S>,
    combo: int,
)
    requires
        board.wf(),
        0 <= combo < board.count(),
        reach.len() == board.count(),
    ensures
        board.side_value(reach, combo) == board.direct_value(reach, combo, board.count()),
        board.side_value(reach, combo) == board.direct_loss(reach, combo, board.count()),
{
    lemma_side_value(board, reach, combo);
    lemma_direct_value(board, reach, combo, board.count());
    lemma_direct_loss(board, reach, combo, board.count());
}

/// What a combo wins from the listed combos.
proof fn lemma_listed_value<S: ExactScalar>(
    board: &PreparedTerminalBoard,
    reach: Seq<S>,
    list: Seq<u16>,
    hero: int,
    k: nat,
)
    requires
        k <= list.len(),
        reach.len() == board.count(),
        forall|i: int| 0 <= i < list.len() ==> (#[trigger] list[i]) < board.count(),
    ensures
        board.listed_value(reach, list, hero, k) == sum_below(
            |i: int| fairly_won_from(board, reach, hero)(list[i] as int),
            k,
        ),
    decreases k,
{
    let f = |i: int| fairly_won_from(board, reach, hero)(list[i] as int);
    if k > 0 {
        lemma_listed_value(board, reach, list, hero, (k - 1) as nat);
        S::plus_zero(board.listed_value(reach, list, hero, (k - 1) as nat));
        S::times_unit(reach[list[k - 1] as int]);
        assert(f(k - 1) == fairly_won_from(board, reach, hero)(list[k - 1] as int));
    }
}

/// Over exact numbers the values against a list of combos are the full values, if the list holds every
/// combo that the opponent reaches with, once.
pub proof fn sparse_matches_prefix_blocker<S: ExactScalar>(
    board: &PreparedTerminalBoard,
    reach: Seq<S>,
    list: Seq<u16>,
    hero: int,
)
    requires
        board.wf(),
        0 <= hero < board.count(),
        reach.len() == board.count(),
        forall|i: int| 0 <= i < list.len() ==> (#[trigger] list[i]) < board.count(),
        forall|i: int, j: int|
            0 <= i < j < list.len() ==> #[trigger] list[i] != #[trigger] list[j],
        forall|v: int|
            0 <= v < board.count() && #[trigger] reach[v] != S::zero_spec() ==> list.contains(
                v as u16,
            ),
    ensures
        board.listed_value(reach, list, hero, list.len()) == board.side_value(reach, hero),
{
    board.wf_facts();
    let n = board.count();
    lemma_side_value(board, reach, hero);
    lemma_listed_value(board, reach, list, hero, list.len());
    let fair = fairly_won_from(board, reach, hero);
    let ints = list.map(|i: int, v: u16| v as int);
    assert(positions(ints, n)) by {
        assert forall|i: int, j: int| 0 <= i < j < ints.len() implies #[trigger] ints[i]
            != #[trigger] ints[j] by {
            assert(list[i] != list[j]);
        }
    }
    sum_over_list(ints, fair, n);
    let held = |v: int| if ints.contains(v) { fair(v) } else { S::zero_spec() };
    assert forall|v: int| 0 <= v < n implies #[trigger] held(v) == fair(v) by {
        negate_twice(S::zero_spec());
        if reach[v] != S::zero_spec() {
            assert(list.contains(v as u16));
            let i = choose|i: int| 0 <= i < list.len() && list[i] == v as u16;
            assert(ints[i] == v);
        }
    }
    sum_below_same(held, fair, n);
    sum_below_same(
        |i: int| fairly_won_from(board, reach, hero)(list[i] as int),
        |i: int| fair(ints[i]),
        list.len(),
    );
}

/// What a combo wins from a combo of the opponent's that is held once.
pub open spec fn won_share<S: Scalar>(board: &PreparedTerminalBoard) -> spec_fn(int, int) -> S {
    |hero: int, villain: int|
        if board.combos_spec()[hero].collides_spec(board.combos_spec()[villain]) {
            S::zero_spec()
        } else if board.strengths_spec()[villain] < board.strengths_spec()[hero] {
            S::one_spec()
        } else if board.strengths_spec()[villain] > board.strengths_spec()[hero] {
            S::one_spec().negate_spec()
        } else {
            S::zero_spec()
        }
}

proof fn lemma_share<S: ExactScalar>(board: &PreparedTerminalBoard, reach: Seq<S>, a: int, b: int)
    requires
        products_agree::<S>(),
    ensures
        won_share::<S>(board)(a, b).times_spec(reach[b]) == fairly_won_from(board, reach, a)(b),
        won_share::<S>(board)(b, a) == won_share::<S>(board)(a, b).negate_spec(),
{
    let one = S::one_spec();
    let zero = S::zero_spec();
    negate_twice(one);
    negate_twice(zero);
    S::times_unit(reach[b]);
    times_laws(reach[b], one, zero);
    times_laws(reach[b], zero, zero);
    times_laws(reach[b], one.negate_spec(), zero);
}

/// What all combos are worth against an opponent's reach.
pub open spec fn all_side_values<S: Scalar>(board: &PreparedTerminalBoard, reach: Seq<S>) -> Seq<S> {
    Seq::new(board.count(), |combo: int| board.side_value(reach, combo))
}

/// On a finished board, what two players' combos are worth against each other, weighed by how often they
/// are reached, adds up to nothing.
pub proof fn boards_are_zero_sum<S: ExactScalar>(
    board: &PreparedTerminalBoard,
    hero: Seq<S>,
    villain: Seq<S>,
)
    requires
        products_agree::<S>(),
        board.wf(),
        hero.len() == board.count(),
        villain.len() == board.count(),
    ensures
        earned(hero, all_side_values(board, villain)).plus_spec(
            earned(villain, all_side_values(board, hero)),
        ) == S::zero_spec(),
{
    let n = board.count();
    let share = won_share::<S>(board);
    let values = all_side_values(board, villain);
    let losses = all_side_values(board, hero);
    assert forall|i: int| 0 <= i < n implies #[trigger] values[i] == sum_below(
        earned_from(share, villain, i),
        n,
    ) by {
        lemma_side_value(board, villain, i);
        let fair = fairly_won_from(board, villain, i);
        assert forall|j: int| 0 <= j < n implies #[trigger] fair(j) == earned_from(
            share,
            villain,
            i,
        )(j) by {
            lemma_share(board, villain, i, j);
        }
        sum_below_same(fair, earned_from(share, villain, i), n);
    }
    assert forall|j: int| 0 <= j < n implies #[trigger] losses[j] == sum_below(
        lost_to(share, hero, j),
        n,
    ) by {
        lemma_side_value(board, hero, j);
        let fair = fairly_won_from(board, hero, j);
        assert forall|i: int| 0 <= i < n implies #[trigger] fair(i) == lost_to(share, hero, j)(i) by {
            lemma_share(board, hero, j, i);
            lemma_share(board, hero, i, j);
        }
        sum_below_same(fair, lost_to(share, hero, j), n);
    }
    pairs_cancel(share, hero, villain, values, losses);
}

} // verus!
