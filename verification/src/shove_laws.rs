//! What shoving and calling with a short stack are worth, in whole numbers of steps: the pot if nobody calls,
//! a share of the called pot less what it costs if somebody does.
use vstd::prelude::*;
use crate::arith::capped;
use crate::hand_class::HandClass;
use crate::matching_laws::lemma_floor;
use crate::measure::{share_in_steps, MeasuredScalar};
use crate::river_laws::lemma_mix;
use crate::short_stack::{
    call_results, combo_fraction_spec, combo_total, continues, fold_probability, powered, ranked,
    result_key, shove_ev, shove_results, shoves, HandResult,
};
use crate::sorting::{sorting, sorting_exists};
use crate::update_laws::{comparable, is_share};

verus! {

/// What a shove is worth if somebody calls, in steps: the hand's share of the pot with both stacks in it,
/// less the stack.
pub open spec fn called_steps<S: MeasuredScalar>(dead_pot: u32, all_in_cost: u32, equity: S) -> int {
    equity.steps() * (dead_pot + capped(2 * all_in_cost)) - all_in_cost * S::unit()
}

/// Whether so many chips are all in.
pub open spec fn chips_fit(dead_pot: u32, all_in_cost: u32) -> bool {
    dead_pot + capped(2 * all_in_cost) <= u32::MAX
}

proof fn lemma_called<S: MeasuredScalar>(dead_pot: u32, all_in_cost: u32, equity: S)
    requires
        chips_fit(dead_pot, all_in_cost),
        is_share(equity),
    ensures
        equity.times_spec(
            S::from_u32_spec((dead_pot + capped(2 * all_in_cost)) as u32),
        ).minus_spec(S::from_u32_spec(all_in_cost)).steps() == called_steps(
            dead_pot,
            all_in_cost,
            equity,
        ),
        -S::limit() <= called_steps(dead_pot, all_in_cost, equity) <= S::limit(),
        0 <= dead_pot * S::unit() <= S::limit(),
{
    S::measured_units();
    let chips = (dead_pot + capped(2 * all_in_cost)) as u32;
    let pot = S::from_u32_spec(chips);
    let risk = S::from_u32_spec(all_in_cost);
    let u = S::unit();
    let e = equity.steps();
    S::measured_counts(chips, 0);
    S::measured_counts(all_in_cost, 0);
    assert(0 <= chips * u <= S::limit()) by (nonlinear_arith)
        requires
            u * 0x1_0000_0000 <= S::limit(),
            chips < 0x1_0000_0000,
            u >= 2,
    ;
    share_in_steps(equity, pot);
    assert(e * (chips * u) == u * (e * chips)) by (nonlinear_arith);
    vstd::arithmetic::div_mod::lemma_div_multiples_vanish(e * chips, u);
    assert(0 <= e * chips <= chips * u) by (nonlinear_arith)
        requires
            0 <= e <= u,
    ;
    assert(0 <= all_in_cost * u <= S::limit() && 0 <= dead_pot * u <= S::limit()) by (nonlinear_arith)
        requires
            u * 0x1_0000_0000 <= S::limit(),
            all_in_cost < 0x1_0000_0000,
            dead_pot < 0x1_0000_0000,
            u >= 2,
    ;
    S::measured_sum(equity.times_spec(pot), risk);
}

/// What a shove is worth by its two outcomes: exactly the dead pot if surely nobody calls, exactly the share of
/// the called pot less the risk if surely somebody does, and between the two, but for a step of rounding, if
/// either can be. It is the dead pot as often as all fold, and the other as often as not.
pub proof fn shoves_are_worth_their_outcomes<S: MeasuredScalar>(
    folded: S,
    dead_pot: u32,
    all_in_cost: u32,
    equity: S,
)
    requires
        chips_fit(dead_pot, all_in_cost),
        is_share(folded),
        is_share(equity),
    ensures
        ({
            let ev = shove_ev(folded, dead_pot, all_in_cost, equity).steps();
            let pot = dead_pot * S::unit();
            let called = called_steps(dead_pot, all_in_cost, equity);
            &&& folded.steps() == S::unit() ==> ev == pot
            &&& folded.steps() == 0 ==> ev == called
            &&& pot <= called ==> pot - 1 <= ev <= called
            &&& called <= pot ==> called - 1 <= ev <= pot
            &&& ev == folded.steps() * dead_pot + ((S::unit() - folded.steps()) * called) / S::unit()
        }),
{
    S::measured_units();
    lemma_called(dead_pot, all_in_cost, equity);
    let u = S::unit();
    let p = folded.steps();
    let one = S::one_spec();
    let pot = S::from_u32_spec(dead_pot);
    S::measured_counts(dead_pot, 0);
    S::measured_sum(one, folded);
    let rest = one.minus_spec(folded);
    assert(u <= S::limit()) by (nonlinear_arith)
        requires
            u * 0x1_0000_0000 <= S::limit(),
            u >= 2,
    ;
    assert(rest.steps() == u - p);
    share_in_steps(folded, pot);
    let chips = (dead_pot + capped(2 * all_in_cost)) as u32;
    let gain = equity.times_spec(S::from_u32_spec(chips)).minus_spec(
        S::from_u32_spec(all_in_cost),
    );
    share_in_steps(rest, gain);
    let x = gain.steps();
    let d = dead_pot * u;
    assert(p * d == u * (p * dead_pot)) by (nonlinear_arith)
        requires
            d == dead_pot * u,
    ;
    vstd::arithmetic::div_mod::lemma_div_multiples_vanish(p * dead_pot, u);
    if d <= x {
        lemma_mix(u - p, p, d, x, u);
    }
    if x <= d {
        lemma_mix(p, u - p, x, d, u);
    }
    assert((u - p) * x / u + p * dead_pot == p * dead_pot + ((u - p) * x) / u);
    assert(-S::limit() <= p * dead_pot + ((u - p) * x) / u <= S::limit());
    S::measured_sum(folded.times_spec(pot), rest.times_spec(gain));
    assert(p == u ==> p * dead_pot == d) by (nonlinear_arith)
        requires
            d == dead_pot * u,
    ;
    assert(p == 0 ==> p * dead_pot == 0) by (nonlinear_arith);
}

/// A shove is worth no less into a larger dead pot, and no less with a larger share.
pub proof fn shoves_grow_with_the_pot<S: MeasuredScalar>(
    folded: S,
    small_pot: u32,
    large_pot: u32,
    all_in_cost: u32,
    small_share: S,
    large_share: S,
)
    requires
        small_pot <= large_pot,
        chips_fit(large_pot, all_in_cost),
        is_share(folded),
        is_share(small_share),
        is_share(large_share),
        small_share.steps() <= large_share.steps(),
    ensures
        shove_ev(folded, small_pot, all_in_cost, small_share).steps() <= shove_ev(
            folded,
            large_pot,
            all_in_cost,
            large_share,
        ).steps(),
        folded.steps() > 0 && small_pot < large_pot ==> shove_ev(
            folded,
            small_pot,
            all_in_cost,
            small_share,
        ).steps() < shove_ev(folded, large_pot, all_in_cost, large_share).steps(),
{
    S::measured_units();
    shoves_are_worth_their_outcomes(folded, small_pot, all_in_cost, small_share);
    shoves_are_worth_their_outcomes(folded, large_pot, all_in_cost, large_share);
    let u = S::unit();
    let p = folded.steps();
    let a = called_steps(small_pot, all_in_cost, small_share);
    let b = called_steps(large_pot, all_in_cost, large_share);
    let more = capped(2 * all_in_cost);
    assert(a <= b) by (nonlinear_arith)
        requires
            a == small_share.steps() * (small_pot + more) - all_in_cost * u,
            b == large_share.steps() * (large_pot + more) - all_in_cost * u,
            0 <= small_share.steps() <= large_share.steps(),
            small_pot <= large_pot,
            0 <= small_pot,
            0 <= more,
    ;
    assert((u - p) * a <= (u - p) * b) by (nonlinear_arith)
        requires
            a <= b,
            p <= u,
    ;
    vstd::arithmetic::div_mod::lemma_div_is_ordered((u - p) * a, (u - p) * b, u);
    assert(p * small_pot <= p * large_pot) by (nonlinear_arith)
        requires
            p >= 0,
            small_pot <= large_pot,
    ;
    assert(p > 0 && small_pot < large_pot ==> p * small_pot < p * large_pot) by (nonlinear_arith);
}

proof fn lemma_powered<S: MeasuredScalar>(base: S, n: nat)
    requires
        is_share(base),
    ensures
        is_share(powered(base, n)),
        base.steps() == S::unit() ==> powered(base, n).steps() == S::unit(),
        n == 0 ==> powered(base, n).steps() == S::unit(),
        base.steps() == 0 && n > 0 ==> powered(base, n).steps() == 0,
        n > 0 ==> powered(base, n).steps() <= powered(base, (n - 1) as nat).steps(),
        n > 0 ==> powered(base, n).steps() <= base.steps(),
    decreases n,
{
    S::measured_units();
    assert(S::unit() <= S::limit()) by (nonlinear_arith)
        requires
            S::unit() * 0x1_0000_0000 <= S::limit(),
            S::unit() >= 2,
    ;
    if n > 0 {
        lemma_powered(base, (n - 1) as nat);
        share_in_steps(powered(base, (n - 1) as nat), base);
        share_in_steps(base, powered(base, (n - 1) as nat));
    }
}

proof fn lemma_fraction<S: MeasuredScalar>(range: Seq<HandClass>)
    requires
        combo_total(range) <= 1326,
    ensures
        is_share(combo_fraction_spec::<S>(range)),
        combo_fraction_spec::<S>(range).steps() == (combo_total(range) * S::unit()) / 1326,
        S::one_spec().minus_spec(combo_fraction_spec::<S>(range)).steps() == S::unit()
            - combo_fraction_spec::<S>(range).steps(),
{
    S::measured_units();
    let t = combo_total(range) as int;
    let u = S::unit();
    assert(0 <= t * u <= S::limit() && u <= S::limit()) by (nonlinear_arith)
        requires
            u * 0x1_0000_0000 <= S::limit(),
            0 <= t <= 1326,
            u >= 2,
    ;
    S::measured_counts(1326, t as usize);
    let q = (t * u) / 1326;
    lemma_floor(t * u, 1326);
    assert(((t * u) * u) / (1326 * u) == q) by {
        let rest = (t * u) - q * 1326;
        assert((t * u) * u == (1326 * u) * q + rest * u) by (nonlinear_arith)
            requires
                rest == t * u - q * 1326,
        ;
        assert(0 <= rest * u < 1326 * u) by (nonlinear_arith)
            requires
                0 <= rest < 1326,
                u >= 2,
        ;
        vstd::arithmetic::div_mod::lemma_fundamental_div_mod_converse(
            (t * u) * u,
            1326 * u,
            q,
            rest * u,
        );
    }
    assert(0 <= q <= u) by (nonlinear_arith)
        requires
            q * 1326 <= t * u,
            t * u < (q + 1) * 1326,
            0 <= t <= 1326,
            u >= 2,
    ;
    S::measured_quotient(S::from_count_spec(t as usize), S::from_u32_spec(1326));
    S::measured_sum(S::one_spec(), combo_fraction_spec::<S>(range));
}

/// How likely all players behind fold: surely if there are none or they call with nothing, surely not if they
/// call with everything, no more often with one player more, and one player folds as often as the hands that
/// are not called with come up.
pub proof fn players_fold_what_they_do_not_call<S: MeasuredScalar>(
    call_range: Seq<HandClass>,
    players_behind: u8,
)
    requires
        combo_total(call_range) <= 1326,
    ensures
        ({
            let folded = fold_probability::<S>(call_range, players_behind);
            &&& is_share(folded)
            &&& combo_total(call_range) == 0 || players_behind == 0 ==> folded.steps() == S::unit()
            &&& combo_total(call_range) == 1326 && players_behind > 0 ==> folded.steps() == 0
            &&& players_behind == 1 ==> folded.steps() == S::unit() - (combo_total(call_range)
                * S::unit()) / 1326
            &&& players_behind < u8::MAX ==> fold_probability::<S>(
                call_range,
                (players_behind + 1) as u8,
            ).steps() <= folded.steps()
        }),
{
    S::measured_units();
    lemma_fraction::<S>(call_range);
    let base = S::one_spec().minus_spec(combo_fraction_spec::<S>(call_range));
    lemma_powered(base, players_behind as nat);
    if players_behind < u8::MAX {
        lemma_powered(base, (players_behind + 1) as nat);
    }
    assert(0 * S::unit() == 0 && 0int / 1326 == 0);
    vstd::arithmetic::div_mod::lemma_div_multiples_vanish(S::unit(), 1326);
    assert(1326 * S::unit() == S::unit() * 1326);
    if players_behind == 1 {
        lemma_powered(base, 0);
        assert(S::unit() <= S::limit()) by (nonlinear_arith)
            requires
                S::unit() * 0x1_0000_0000 <= S::limit(),
                S::unit() >= 2,
        ;
        reveal_with_fuel(powered, 3);
        share_in_steps(powered(base, 0), base);
    }
}

/// Results in order: all of them, the largest first.
pub proof fn results_are_ranked<S: MeasuredScalar>(results: Seq<HandResult<S>>, by_ev: bool)
    requires
        results.len() <= usize::MAX,
    ensures
        ranked(results, by_ev).len() == results.len(),
        forall|i: int|
            0 <= i < results.len() ==> results.contains(#[trigger] ranked(results, by_ev)[i]),
        forall|k: int|
            0 <= k < results.len() ==> ranked(results, by_ev).contains(#[trigger] results[k]),
        forall|i: int, j: int|
            0 <= i < j < results.len() ==> if by_ev {
                (#[trigger] ranked(results, by_ev)[i]).ev.steps() >= (#[trigger] ranked(
                    results,
                    by_ev,
                )[j]).ev.steps() && (ranked(results, by_ev)[i].ev.steps() == ranked(
                    results,
                    by_ev,
                )[j].ev.steps() ==> ranked(results, by_ev)[i].equity.steps() >= ranked(
                    results,
                    by_ev,
                )[j].equity.steps())
            } else {
                ranked(results, by_ev)[i].equity.steps() >= ranked(results, by_ev)[j].equity.steps()
            },
{
    let keys = Seq::new(results.len(), |i: int| result_key(results[i], by_ev));
    sorting_exists(keys);
    let order = sorting(keys);
    let list = ranked(results, by_ev);
    assert forall|i: int| 0 <= i < results.len() implies results.contains(#[trigger] list[i]) by {
        assert(0 <= order[i] < results.len());
        assert(results[order[i] as int] == list[i]);
    }
    assert forall|k: int| 0 <= k < results.len() implies list.contains(#[trigger] results[k]) by {
        assert(order.contains(k as usize));
        let i = choose|i: int| 0 <= i < order.len() && order[i] == k as usize;
        assert(list[i] == results[k]);
    }
    assert forall|i: int, j: int| 0 <= i < j < results.len() implies if by_ev {
        (#[trigger] list[i]).ev.steps() >= (#[trigger] list[j]).ev.steps() && (list[i].ev.steps()
            == list[j].ev.steps() ==> list[i].equity.steps() >= list[j].equity.steps())
    } else {
        list[i].equity.steps() >= list[j].equity.steps()
    } by {
        let (a, b) = (order[i] as int, order[j] as int);
        assert(0 <= a < results.len() && 0 <= b < results.len());
        assert(keys[a] == result_key(results[a], by_ev));
        assert(keys[b] == result_key(results[b], by_ev));
        S::measured_order(results[b].ev, results[a].ev);
        S::measured_order(results[b].equity, results[a].equity);
        assert(!keys[b].less(keys[a]));
    }
}

/// Whether a result is of a hand with its share.
pub open spec fn is_result_of<S>(
    result: HandResult<S>,
    classes: Seq<HandClass>,
    shares: Seq<S>,
    n: int,
) -> bool {
    result.hand == classes[n] && result.equity == shares[n]
}

/// Whether a hand with its share is among results.
#[verifier::opaque]
pub open spec fn holds_hand<S>(
    results: Seq<HandResult<S>>,
    classes: Seq<HandClass>,
    shares: Seq<S>,
    n: int,
) -> bool {
    exists|i: int| 0 <= i < results.len() && is_result_of(#[trigger] results[i], classes, shares, n)
}

/// What a shove is worth, in steps: the dead pot as often as all fold, what it is worth called as often as not.
pub open spec fn shove_steps<S: MeasuredScalar>(
    folded: int,
    dead_pot: u32,
    all_in_cost: u32,
    equity: S,
) -> int {
    folded * dead_pot + ((S::unit() - folded) * called_steps(dead_pot, all_in_cost, equity)) / S::unit()
}

/// Whether a result is of one of the first `n` hands, is worth what its two outcomes make it, and that is not
/// below zero.
#[verifier::opaque]
pub open spec fn is_shove<S: MeasuredScalar>(
    result: HandResult<S>,
    classes: Seq<HandClass>,
    shares: Seq<S>,
    n: nat,
    folded: int,
    dead_pot: u32,
    all_in_cost: u32,
) -> bool {
    exists|m: int|
        0 <= m < n && #[trigger] is_result_of(result, classes, shares, m) && result.ev.steps()
            == shove_steps(folded, dead_pot, all_in_cost, shares[m]) && result.ev.steps() >= 0
}

/// Whether a result is of one of the first `n` hands, which wins at least the share needed, and says how much
/// more.
#[verifier::opaque]
pub open spec fn is_call<S: MeasuredScalar>(
    result: HandResult<S>,
    classes: Seq<HandClass>,
    shares: Seq<S>,
    n: nat,
    required: S,
) -> bool {
    exists|m: int|
        0 <= m < n && #[trigger] is_result_of(result, classes, shares, m) && shares[m].steps()
            >= required.steps() && result.ev.steps() == shares[m].steps() - required.steps()
}

proof fn lemma_still_held<S>(
    front: Seq<HandResult<S>>,
    list: Seq<HandResult<S>>,
    classes: Seq<HandClass>,
    shares: Seq<S>,
    m: int,
)
    requires
        holds_hand(front, classes, shares, m),
        forall|i: int| 0 <= i < front.len() ==> list.contains(#[trigger] front[i]),
    ensures
        holds_hand(list, classes, shares, m),
{
    reveal(holds_hand);
    let i = choose|i: int|
        0 <= i < front.len() && is_result_of(#[trigger] front[i], classes, shares, m);
    assert(list.contains(front[i]));
    let k = choose|k: int| 0 <= k < list.len() && list[k] == front[i];
    assert(is_result_of(list[k], classes, shares, m));
}

proof fn lemma_shoves<S: MeasuredScalar>(
    classes: Seq<HandClass>,
    shares: Seq<S>,
    folded: S,
    dead_pot: u32,
    all_in_cost: u32,
    n: nat,
)
    requires
        n <= classes.len(),
        shares.len() == classes.len(),
        forall|m: int| 0 <= m < shares.len() ==> is_share(#[trigger] shares[m]),
        is_share(folded),
        chips_fit(dead_pot, all_in_cost),
    ensures
        ({
            let list = shoves(classes, shares, folded, dead_pot, all_in_cost, n);
            &&& list.len() <= n
            &&& forall|i: int|
                0 <= i < list.len() ==> is_shove(
                    #[trigger] list[i],
                    classes,
                    shares,
                    n,
                    folded.steps(),
                    dead_pot,
                    all_in_cost,
                )
            &&& forall|m: int|
                0 <= m < n && shove_steps(
                    folded.steps(),
                    dead_pot,
                    all_in_cost,
                    #[trigger] shares[m],
                ) >= 0 ==> holds_hand(list, classes, shares, m)
            &&& folded.steps() == S::unit() ==> list.len() == n && forall|i: int|
                0 <= i < list.len() ==> (#[trigger] list[i]).ev.steps() == dead_pot * S::unit()
        }),
    decreases n,
{
    S::measured_units();
    if n > 0 {
        lemma_shoves(classes, shares, folded, dead_pot, all_in_cost, (n - 1) as nat);
        let front = shoves(classes, shares, folded, dead_pot, all_in_cost, (n - 1) as nat);
        let list = shoves(classes, shares, folded, dead_pot, all_in_cost, n);
        let ev = shove_ev(folded, dead_pot, all_in_cost, shares[n - 1]);
        assert(is_share(shares[n - 1]));
        shoves_are_worth_their_outcomes(folded, dead_pot, all_in_cost, shares[n - 1]);
        S::measured_order(ev, S::zero_spec());
        assert(dead_pot * S::unit() >= 0) by (nonlinear_arith)
            requires
                S::unit() >= 2,
        ;
        assert forall|i: int| 0 <= i < front.len() implies list.contains(#[trigger] front[i]) by {
            assert(list[i] == front[i]);
        }
        assert forall|i: int| 0 <= i < list.len() implies is_shove(
            #[trigger] list[i],
            classes,
            shares,
            n,
            folded.steps(),
            dead_pot,
            all_in_cost,
        ) by {
            reveal(is_shove);
            if i < front.len() {
                assert(list[i] == front[i]);
                let m = choose|m: int|
                    0 <= m < n - 1 && #[trigger] is_result_of(front[i], classes, shares, m)
                        && front[i].ev.steps() == shove_steps(
                        folded.steps(),
                        dead_pot,
                        all_in_cost,
                        shares[m],
                    ) && front[i].ev.steps() >= 0;
                assert(is_result_of(list[i], classes, shares, m));
            } else {
                assert(is_result_of(list[i], classes, shares, n - 1));
            }
        }
        assert forall|m: int|
            0 <= m < n && shove_steps(folded.steps(), dead_pot, all_in_cost, #[trigger] shares[m])
                >= 0 implies holds_hand(list, classes, shares, m) by {
            if m < n - 1 {
                lemma_still_held(front, list, classes, shares, m);
            } else {
                reveal(holds_hand);
                assert(is_result_of(list[front.len() as int], classes, shares, m));
            }
        }
    }
}

/// The shoving range: each hand in it is one of the hands with its share, is worth what its two outcomes make
/// it, and that is not below zero; each hand of which that holds is in it; the most valuable come first. Into
/// players who never call, every hand is in it and is worth the dead pot.
pub proof fn shoving_ranges_hold_what_pays<S: MeasuredScalar>(
    classes: Seq<HandClass>,
    shares: Seq<S>,
    call_range: Seq<HandClass>,
    players_behind: u8,
    dead_pot: u32,
    all_in_cost: u32,
)
    requires
        classes.len() <= usize::MAX,
        shares.len() == classes.len(),
        forall|n: int| 0 <= n < shares.len() ==> is_share(#[trigger] shares[n]),
        combo_total(call_range) <= 1326,
        chips_fit(dead_pot, all_in_cost),
    ensures
        ({
            let results = shove_results(
                classes,
                shares,
                call_range,
                players_behind,
                dead_pot,
                all_in_cost,
            );
            let folded = fold_probability::<S>(call_range, players_behind).steps();
            &&& forall|i: int|
                0 <= i < results.len() ==> is_shove(
                    #[trigger] results[i],
                    classes,
                    shares,
                    classes.len(),
                    folded,
                    dead_pot,
                    all_in_cost,
                )
            &&& forall|n: int|
                0 <= n < classes.len() && shove_steps(
                    folded,
                    dead_pot,
                    all_in_cost,
                    #[trigger] shares[n],
                ) >= 0 ==> holds_hand(results, classes, shares, n)
            &&& forall|i: int, j: int|
                0 <= i < j < results.len() ==> (#[trigger] results[i]).ev.steps() >= (
                #[trigger] results[j]).ev.steps()
            &&& combo_total(call_range) == 0 || players_behind == 0 ==> results.len()
                == classes.len() && forall|i: int|
                0 <= i < results.len() ==> (#[trigger] results[i]).ev.steps() == dead_pot * S::unit()
        }),
{
    S::measured_units();
    let folded = fold_probability::<S>(call_range, players_behind);
    players_fold_what_they_do_not_call::<S>(call_range, players_behind);
    let list = shoves(classes, shares, folded, dead_pot, all_in_cost, classes.len());
    lemma_shoves(classes, shares, folded, dead_pot, all_in_cost, classes.len());
    results_are_ranked(list, true);
    let results = ranked(list, true);
    assert forall|i: int| 0 <= i < results.len() implies is_shove(
        #[trigger] results[i],
        classes,
        shares,
        classes.len(),
        folded.steps(),
        dead_pot,
        all_in_cost,
    ) && (folded.steps() == S::unit() ==> results[i].ev.steps() == dead_pot * S::unit()) by {
        assert(list.contains(results[i]));
        let k = choose|k: int| 0 <= k < list.len() && list[k] == results[i];
        assert(list[k].ev == results[i].ev);
    }
    assert forall|n: int|
        0 <= n < classes.len() && shove_steps(
            folded.steps(),
            dead_pot,
            all_in_cost,
            #[trigger] shares[n],
        ) >= 0 implies holds_hand(results, classes, shares, n) by {
        lemma_still_held(list, results, classes, shares, n);
    }
}

proof fn lemma_continues<S: MeasuredScalar>(
    classes: Seq<HandClass>,
    shares: Seq<S>,
    required: S,
    n: nat,
)
    requires
        n <= classes.len(),
        shares.len() == classes.len(),
        comparable::<S>(required.steps()),
        forall|m: int| 0 <= m < shares.len() ==> comparable::<S>((#[trigger] shares[m]).steps()),
    ensures
        ({
            let list = continues(classes, shares, required, n);
            &&& list.len() <= n
            &&& forall|i: int|
                0 <= i < list.len() ==> is_call(#[trigger] list[i], classes, shares, n, required)
            &&& forall|m: int|
                0 <= m < n && (#[trigger] shares[m]).steps() >= required.steps() ==> holds_hand(
                    list,
                    classes,
                    shares,
                    m,
                )
        }),
    decreases n,
{
    S::measured_units();
    if n > 0 {
        lemma_continues(classes, shares, required, (n - 1) as nat);
        let front = continues(classes, shares, required, (n - 1) as nat);
        let list = continues(classes, shares, required, n);
        assert(comparable::<S>(shares[n - 1].steps()));
        S::measured_sum(shares[n - 1], required);
        let ev = shares[n - 1].minus_spec(required);
        S::measured_order(ev, S::zero_spec());
        assert forall|i: int| 0 <= i < front.len() implies list.contains(#[trigger] front[i]) by {
            assert(list[i] == front[i]);
        }
        assert forall|i: int| 0 <= i < list.len() implies is_call(
            #[trigger] list[i],
            classes,
            shares,
            n,
            required,
        ) by {
            reveal(is_call);
            if i < front.len() {
                assert(list[i] == front[i]);
                let m = choose|m: int|
                    0 <= m < n - 1 && #[trigger] is_result_of(front[i], classes, shares, m)
                        && shares[m].steps() >= required.steps() && front[i].ev.steps()
                        == shares[m].steps() - required.steps();
                assert(is_result_of(list[i], classes, shares, m));
            } else {
                assert(is_result_of(list[i], classes, shares, n - 1));
            }
        }
        assert forall|m: int|
            0 <= m < n && (#[trigger] shares[m]).steps() >= required.steps() implies holds_hand(
            list,
            classes,
            shares,
            m,
        ) by {
            if m < n - 1 {
                lemma_still_held(front, list, classes, shares, m);
            } else {
                reveal(holds_hand);
                assert(is_result_of(list[front.len() as int], classes, shares, m));
            }
        }
    }
}

/// The calling range: the hands that win at least the share needed and no others, each with how much more it
/// wins, the largest share first.
pub proof fn calling_ranges_hold_what_pays<S: MeasuredScalar>(
    classes: Seq<HandClass>,
    shares: Seq<S>,
    required: S,
)
    requires
        classes.len() <= usize::MAX,
        shares.len() == classes.len(),
        comparable::<S>(required.steps()),
        forall|m: int| 0 <= m < shares.len() ==> comparable::<S>((#[trigger] shares[m]).steps()),
    ensures
        ({
            let results = call_results(classes, shares, required);
            &&& forall|i: int|
                0 <= i < results.len() ==> is_call(
                    #[trigger] results[i],
                    classes,
                    shares,
                    classes.len(),
                    required,
                )
            &&& forall|m: int|
                0 <= m < classes.len() && (#[trigger] shares[m]).steps() >= required.steps()
                    ==> holds_hand(results, classes, shares, m)
            &&& forall|i: int, j: int|
                0 <= i < j < results.len() ==> (#[trigger] results[i]).equity.steps() >= (
                #[trigger] results[j]).equity.steps()
        }),
{
    let list = continues(classes, shares, required, classes.len());
    lemma_continues(classes, shares, required, classes.len());
    results_are_ranked(list, false);
    let results = ranked(list, false);
    assert forall|i: int| 0 <= i < results.len() implies is_call(
        #[trigger] results[i],
        classes,
        shares,
        classes.len(),
        required,
    ) by {
        assert(list.contains(results[i]));
        let k = choose|k: int| 0 <= k < list.len() && list[k] == results[i];
        assert(list[k] == results[i]);
    }
    assert forall|m: int|
        0 <= m < classes.len() && (#[trigger] shares[m]).steps() >= required.steps() implies holds_hand(
        results,
        classes,
        shares,
        m,
    ) by {
        lemma_still_held(list, results, classes, shares, m);
    }
}

} // verus!
