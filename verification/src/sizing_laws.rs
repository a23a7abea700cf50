//! Which sizes are bet after the flop, and what bets do to the chips.
use vstd::prelude::*;
use crate::betting_laws::{is_nearest, lemma_share};
use crate::measure::MeasuredScalar;
use crate::postflop::{
    absorbs_from, amount_keys, amounts_apart, by_amount, fraction_amount, keep_key, keep_keys,
    legal_amount, merged, nearest, priority, pruned, reordered, ActionSetConfig, AggressiveSizing,
    PlayerAction, RequestView, SizingSource,
};
use crate::postflop_tree::{passed, pressed, PublicState};
use crate::sorting::{sorting, sorting_exists};

verus! {

/// A bet is the share of the pot that it is of; a raise is what is to be called and the share of the pot after a call,
/// to the nearest chip.
pub proof fn fractions_are_of_the_called_pot<S: MeasuredScalar>(request: RequestView, fraction: S)
    requires
        0 <= fraction.steps(),
        request.pot + request.to_call <= u32::MAX,
        (request.pot + request.to_call) * fraction.steps() <= S::unit() * u32::MAX,
        fraction_amount(request, fraction) < u32::MAX,
    ensures
        is_nearest(
            fraction_amount(request, fraction) - request.to_call,
            (request.pot + request.to_call) as u32,
            fraction,
        ),
        fraction.steps() == S::unit() ==> fraction_amount(request, fraction) == request.pot + 2
            * request.to_call,
{
    lemma_share((request.pot + request.to_call) as u32, fraction);
}

/// What is bet for a wish can be bet: it is more than what is to be called and at most the stack, at least the least bet
/// if the stack allows it, and the wish itself if it is neither too small nor near the stack.
pub proof fn wishes_become_legal<S: MeasuredScalar>(request: RequestView, amount: u32, threshold: S)
    ensures
        ({
            let bet = legal_amount(request, amount, threshold);
            let least = request.min_aggressive_amount;
            &&& bet is Some && least <= request.stack && least > request.to_call ==> least <= bet->0
                <= request.stack
            &&& bet is Some ==> bet->0 <= request.stack
            &&& least > request.stack > request.to_call ==> bet == Some(request.stack)
            &&& least > request.stack && request.stack <= request.to_call ==> bet is None
            &&& least <= amount <= request.stack && request.to_call < amount && amount < absorbs_from(
                request,
                threshold,
            ) ==> bet == Some(amount)
            &&& least <= request.stack && amount >= absorbs_from(request, threshold) ==> bet == Some(
                request.stack,
            )
            &&& request.to_call < amount <= least <= request.stack && amount < absorbs_from(
                request,
                threshold,
            ) ==> bet == Some(least)
        }),
{
}

/// A wish is all in from the share of the stack on that the threshold is, rounded up to a chip.
pub proof fn bets_near_the_stack_are_all_in<S: MeasuredScalar>(request: RequestView, threshold: S)
    requires
        0 < threshold.steps(),
        0 < request.stack,
        request.stack * threshold.steps() <= S::unit() * u32::MAX,
    ensures
        ({
            let from = absorbs_from(request, threshold);
            (from - 1) * S::unit() < request.stack * threshold.steps() <= from * S::unit()
        }),
{
    S::measured_units();
    let (n, s, u) = (request.stack as int, threshold.steps(), S::unit());
    S::measured_counts(request.stack, 0);
    assert((n * u) * s == u * (n * s)) by (nonlinear_arith);
    vstd::arithmetic::div_mod::lemma_div_multiples_vanish(n * s, u);
    assert(0 < n * s <= S::limit()) by (nonlinear_arith)
        requires
            n > 0,
            s > 0,
            n * s <= u * u32::MAX,
            u * 0x1_0000_0000 <= S::limit(),
            u >= 2,
    ;
    S::measured_product(S::from_u32_spec(request.stack), threshold);
    let part = S::from_u32_spec(request.stack).times_spec(threshold);
    assert(part.steps() == n * s);
    S::measured_ceiling(part);
    let (a, rest) = ((n * s + u - 1) / u, (n * s + u - 1) % u);
    vstd::arithmetic::div_mod::lemma_fundamental_div_mod(n * s + u - 1, u);
    assert(u * a == a * u && (a - 1) * u == a * u - u) by (nonlinear_arith);
    assert(0 <= a <= u32::MAX) by (nonlinear_arith)
        requires
            n * s + u - 1 == u * a + rest,
            0 <= rest < u,
            0 <= n * s <= u * u32::MAX,
            u >= 2,
    ;
}

/// The size that a bet is near to: none that is as near comes before it and none is nearer, and it is within the distance
/// at which sizes are merged; there is one if any size is.
pub proof fn nearest_sizes_are_nearest<S: MeasuredScalar>(
    sizings: Seq<AggressiveSizing>,
    amount: u32,
    merge: S,
    n: nat,
)
    requires
        n <= sizings.len() <= usize::MAX,
    ensures
        match nearest(sizings, amount, merge, n) {
            Some(k) => {
                &&& k < n
                &&& amounts_apart::<S>(sizings[k as int].amount, amount).steps() <= merge.steps()
                &&& forall|i: int|
                    0 <= i < n ==> amounts_apart::<S>(sizings[k as int].amount, amount).steps()
                        <= amounts_apart::<S>((#[trigger] sizings[i]).amount, amount).steps()
                &&& forall|i: int|
                    0 <= i < k ==> amounts_apart::<S>(sizings[k as int].amount, amount).steps()
                        < amounts_apart::<S>((#[trigger] sizings[i]).amount, amount).steps()
            },
            None => forall|i: int|
                0 <= i < n ==> amounts_apart::<S>((#[trigger] sizings[i]).amount, amount).steps()
                    > merge.steps(),
        },
    decreases n,
{
    if n > 0 {
        let m = (n - 1) as nat;
        nearest_sizes_are_nearest(sizings, amount, merge, m);
        let distance = amounts_apart::<S>(sizings[n - 1].amount, amount);
        S::measured_order(merge, distance);
        match nearest(sizings, amount, merge, m) {
            Some(k) => {
                S::measured_order(amounts_apart::<S>(sizings[k as int].amount, amount), distance);
            },
            None => {},
        }
    }
}

/// A size comes in beside the others if none is near, and in the place of the nearest one if its source counts no less:
/// forced sizes count more than those seen, and those more than the others.
pub proof fn near_sizes_give_way<S: MeasuredScalar>(
    sizings: Seq<AggressiveSizing>,
    incoming: AggressiveSizing,
    merge: S,
)
    requires
        sizings.len() <= usize::MAX,
    ensures
        ({
            let after = merged(sizings, incoming, merge);
            let near = |i: int|
                amounts_apart::<S>(sizings[i].amount, incoming.amount).steps() <= merge.steps();
            &&& (forall|i: int| 0 <= i < sizings.len() ==> !#[trigger] near(i)) ==> after == sizings.push(
                incoming,
            )
            &&& (exists|i: int| 0 <= i < sizings.len() && #[trigger] near(i)) ==> after.len()
                == sizings.len()
            &&& incoming.source == SizingSource::Forced ==> after.contains(incoming)
            &&& forall|i: int|
                0 <= i < sizings.len() && sizings[i].source == SizingSource::Forced && incoming.source
                    != SizingSource::Forced ==> #[trigger] after[i] == sizings[i]
            &&& forall|i: int|
                0 <= i < sizings.len() ==> #[trigger] after[i] == sizings[i] || after[i] == incoming
        }),
{
    nearest_sizes_are_nearest(sizings, incoming.amount, merge, sizings.len());
    let after = merged(sizings, incoming, merge);
    let near = |i: int|
        amounts_apart::<S>(sizings[i].amount, incoming.amount).steps() <= merge.steps();
    match nearest(sizings, incoming.amount, merge, sizings.len()) {
        Some(k) => {
            assert(near(k as int));
            if incoming.source == SizingSource::Forced {
                assert(after[k as int] == incoming);
            }
        },
        None => {
            assert forall|i: int| 0 <= i < sizings.len() implies !#[trigger] near(i) by {
                assert(sizings[i] == sizings[i]);
            }
            assert(after[sizings.len() as int] == incoming);
        },
    }
}

/// Sizes in order: the same sizes, from the smallest to the largest.
pub proof fn sizes_rise(sizings: Seq<AggressiveSizing>)
    requires
        sizings.len() <= usize::MAX,
    ensures
        by_amount(sizings).len() == sizings.len(),
        forall|i: int, j: int|
            0 <= i < j < sizings.len() ==> (#[trigger] by_amount(sizings)[i]).amount <= (
            #[trigger] by_amount(sizings)[j]).amount,
        forall|i: int| 0 <= i < sizings.len() ==> sizings.contains(#[trigger] by_amount(sizings)[i]),
        forall|k: int| 0 <= k < sizings.len() ==> by_amount(sizings).contains(#[trigger] sizings[k]),
{
    let keys = amount_keys(sizings);
    sorting_exists(keys);
    let order = sorting(keys);
    let list = by_amount(sizings);
    assert forall|i: int, j: int| 0 <= i < j < sizings.len() implies (#[trigger] list[i]).amount <= (
    #[trigger] list[j]).amount by {
        let (a, b) = (order[i] as int, order[j] as int);
        assert(0 <= a < sizings.len() && 0 <= b < sizings.len());
        assert(!keys[b].less(keys[a]));
    }
    assert forall|i: int| 0 <= i < sizings.len() implies sizings.contains(#[trigger] list[i]) by {
        assert(sizings[order[i] as int] == list[i]);
    }
    assert forall|k: int| 0 <= k < sizings.len() implies list.contains(#[trigger] sizings[k]) by {
        assert(order.contains(k as usize));
        let i = choose|i: int| 0 <= i < order.len() && order[i] == k as usize;
        assert(list[i] == sizings[k]);
    }
}

/// How far an amount is from a bet of the pot, on top of what is to be called.
pub open spec fn from_pot_sized(request: RequestView, sizing: AggressiveSizing) -> int {
    let apart = sizing.amount - (request.to_call + request.pot);
    if apart >= 0 {
        apart
    } else {
        -apart
    }
}

/// Too many sizes are cut down to as many as are wanted, at least one: a forced size is kept before any other and one
/// that was seen before one that was not, and of one source those nearest to a bet of the pot.
pub proof fn sizes_near_the_pot_are_kept<S: MeasuredScalar>(
    config: ActionSetConfig<S>,
    request: RequestView,
    sizings: Seq<AggressiveSizing>,
)
    requires
        sizings.len() <= usize::MAX,
        request.pot + request.to_call <= u32::MAX,
    ensures
        ({
            let after = pruned(config, request, sizings);
            let most = if config.max_aggressive_actions == 0 {
                1
            } else {
                config.max_aggressive_actions as int
            };
            &&& sizings.len() <= most ==> after == sizings
            &&& sizings.len() > most ==> after.len() == most
            &&& forall|i: int| 0 <= i < after.len() ==> sizings.contains(#[trigger] after[i])
            &&& forall|k: int, i: int|
                0 <= k < sizings.len() && 0 <= i < after.len() && !after.contains(#[trigger] sizings[k])
                    ==> {
                    let kept = #[trigger] after[i];
                    &&& priority(kept.source) >= priority(sizings[k].source)
                    &&& kept.source == sizings[k].source ==> from_pot_sized(request, kept)
                        <= from_pot_sized(request, sizings[k])
                }
        }),
{
    let most = if config.max_aggressive_actions == 0 {
        1
    } else {
        config.max_aggressive_actions as int
    };
    let after = pruned(config, request, sizings);
    if sizings.len() > most {
        let keys = keep_keys(request, sizings);
        sorting_exists(keys);
        let order = sorting(keys);
        let list = reordered(sizings, order);
        let top = list.take(most);
        sizes_rise(top);
        assert forall|i: int| 0 <= i < after.len() implies sizings.contains(#[trigger] after[i]) by {
            assert(top.contains(after[i]));
            let j = choose|j: int| 0 <= j < top.len() && top[j] == after[i];
            assert(sizings[order[j] as int] == after[i]);
        }
        assert forall|k: int, i: int|
            0 <= k < sizings.len() && 0 <= i < after.len() && !after.contains(#[trigger] sizings[k]) implies {
            let kept = #[trigger] after[i];
            &&& priority(kept.source) >= priority(sizings[k].source)
            &&& kept.source == sizings[k].source ==> from_pot_sized(request, kept) <= from_pot_sized(
                request,
                sizings[k],
            )
        } by {
            assert(top.contains(after[i]));
            let j = choose|j: int| 0 <= j < top.len() && top[j] == after[i];
            assert(order.contains(k as usize));
            let at = choose|at: int| 0 <= at < order.len() && order[at] == k as usize;
            if at < most {
                assert(top[at] == sizings[k]);
                assert(after.contains(top[at]));
            }
            let a = order[j] as int;
            assert(!keys[k].less(keys[a]));
            assert(keys[a] == keep_key(request, sizings[a]));
            assert(keys[k] == keep_key(request, sizings[k]));
        }
    } else {
        assert forall|i: int| 0 <= i < after.len() implies sizings.contains(#[trigger] after[i]) by {
            assert(sizings[i] == after[i]);
        }
        assert forall|k: int| 0 <= k < sizings.len() implies after.contains(#[trigger] sizings[k]) by {
            assert(after[k] == sizings[k]);
        }
    }
}

/// A bet of chips puts them in for the player who acts, and the other has to call what the bet tops the call by; a call
/// puts in what is to be called and leaves nothing to call; a check puts nothing in.
pub proof fn bets_move_chips(state: PublicState, amount: u32)
    requires
        state.fits(),
        state.to_call < amount <= state.effective_stack,
        state.pot + state.effective_stack <= u32::MAX,
        state.invested(state.acting_player) + state.effective_stack <= u32::MAX,
    ensures
        ({
            let player = state.acting_player;
            let other = player.next_spec();
            let bet = pressed(state, amount);
            let called = passed(state, PlayerAction::Call { amount: state.to_call });
            let checked = passed(state, PlayerAction::Check);
            &&& bet.pot == state.pot + amount
            &&& bet.invested(player) == state.invested(player) + amount
            &&& bet.invested(other) == state.invested(other)
            &&& bet.to_call == amount - state.to_call
            &&& bet.acting_player == other
            &&& called.pot == state.pot + state.to_call
            &&& called.invested(player) == called.invested(other) == state.invested(other)
            &&& called.effective_stack == state.effective_stack - state.to_call
            &&& called.to_call == 0
            &&& checked.pot == state.pot
            &&& checked.invested(player) == state.invested(player)
            &&& checked.invested(other) == state.invested(other)
            &&& checked.effective_stack == state.effective_stack
        }),
{
}

} // verus!
