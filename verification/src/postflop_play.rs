//! Chips that fit together can be played out.
use vstd::prelude::*;
use crate::cards::{deck_without, Card};
use crate::deals::deck_without_facts;
use crate::postflop::{
    actions_spec, aggressive_spec, all_within, amount_keys, by_amount, deduped, fractions_of,
    keep_keys, legal_amount, merged, nearest, observed_spec, passive_spec, pruned, reordered,
    sizings_spec, standard_spec, suits_request, ActionCandidate, ActionSetConfig, AggressiveSizing,
    PlayerAction, RequestView, SizingSource,
};
use crate::postflop_shape::lemma_passive_only;
use crate::postflop_tree::{
    action_plays_out, actions_play_out, advances, bets_can_be_called, cards_play_out, checks_left,
    dealt, each_card_plays_out, is_over, passed, passive_actions_settle, plays_out, pressed,
    raises_left, request_of, state_actions, PublicState, SubgameTreeConfig,
};
use crate::scalar::Scalar;
use crate::sorting::{sorting, sorting_exists, SortKey};
use crate::tree::Street;

verus! {

proof fn lemma_nearest<S: Scalar>(sizings: Seq<AggressiveSizing>, amount: u32, merge: S, n: nat)
    requires
        n <= sizings.len(),
    ensures
        nearest(sizings, amount, merge, n) matches Some(k) ==> k < n,
    decreases n,
{
    if n > 0 {
        lemma_nearest(sizings, amount, merge, (n - 1) as nat);
    }
}

/// One more size that is within the bounds keeps sizes within them.
proof fn lemma_merged<S: Scalar>(
    request: RequestView,
    sizings: Seq<AggressiveSizing>,
    incoming: AggressiveSizing,
    merge: S,
)
    requires
        all_within(request, sizings),
        request.to_call < incoming.amount <= request.stack,
    ensures
        all_within(request, merged(sizings, incoming, merge)),
        merged(sizings, incoming, merge).len() <= sizings.len() + 1,
{
    lemma_nearest(sizings, incoming.amount, merge, sizings.len());
    let all = merged(sizings, incoming, merge);
    assert forall|i: int| 0 <= i < all.len() implies request.to_call < (#[trigger] all[i]).amount
        <= request.stack by {
        if i < sizings.len() {
            assert(request.to_call < sizings[i].amount <= request.stack);
        }
    }
}

proof fn lemma_standard<S: Scalar>(config: ActionSetConfig<S>, request: RequestView, n: nat)
    requires
        request.raises(),
    ensures
        all_within(request, standard_spec(config, request, n)),
        standard_spec(config, request, n).len() <= n,
    decreases n,
{
    if n > 0 {
        lemma_standard(config, request, (n - 1) as nat);
        let wish = crate::postflop::fraction_amount(request, fractions_of(config, request)[n - 1]);
        if let Some(amount) = legal_amount(request, wish, config.all_in_threshold) {
            lemma_merged(
                request,
                standard_spec(config, request, (n - 1) as nat),
                AggressiveSizing { amount, source: SizingSource::Standard },
                config.merge_log_ratio,
            );
        }
    }
}

proof fn lemma_observed<S: Scalar>(
    config: ActionSetConfig<S>,
    request: RequestView,
    sizings: Seq<AggressiveSizing>,
    n: nat,
)
    requires
        request.raises(),
        all_within(request, sizings),
    ensures
        all_within(request, observed_spec(config, request, sizings, n)),
        observed_spec(config, request, sizings, n).len() <= sizings.len() + n,
    decreases n,
{
    if n > 0 {
        lemma_observed(config, request, sizings, (n - 1) as nat);
        if let Some(amount) = legal_amount(
            request,
            request.observed[n - 1],
            config.all_in_threshold,
        ) {
            lemma_merged(
                request,
                observed_spec(config, request, sizings, (n - 1) as nat),
                AggressiveSizing { amount, source: SizingSource::Observed },
                config.merge_log_ratio,
            );
        }
    }
}

/// Sizes in another order are the same sizes.
proof fn lemma_reordered(request: RequestView, sizings: Seq<AggressiveSizing>, keys: Seq<SortKey>)
    requires
        all_within(request, sizings),
        keys.len() == sizings.len() <= usize::MAX,
    ensures
        all_within(request, reordered(sizings, sorting(keys))),
        reordered(sizings, sorting(keys)).len() == sizings.len(),
{
    sorting_exists(keys);
    let order = sorting(keys);
    let all = reordered(sizings, order);
    assert forall|i: int| 0 <= i < all.len() implies request.to_call < (#[trigger] all[i]).amount
        <= request.stack by {
        assert(0 <= order[i] < keys.len());
        assert(request.to_call < sizings[order[i] as int].amount <= request.stack);
    }
}

proof fn lemma_deduped(request: RequestView, sizings: Seq<AggressiveSizing>, n: nat)
    requires
        all_within(request, sizings),
        n <= sizings.len(),
    ensures
        all_within(request, deduped(sizings, n)),
        deduped(sizings, n).len() <= n,
    decreases n,
{
    if n > 0 {
        lemma_deduped(request, sizings, (n - 1) as nat);
        assert(request.to_call < sizings[n - 1].amount <= request.stack);
    }
}

/// Every action that is offered can be taken: bets are more than what is to be called, up to the stack.
pub proof fn offered_actions_suit<S: Scalar>(config: ActionSetConfig<S>, request: RequestView)
    requires
        request.to_call <= request.stack,
        fractions_of(config, request).len() + request.observed.len() < usize::MAX,
    ensures
        forall|k: int|
            0 <= k < actions_spec(config, request).len() ==> suits_request(
                request,
                (#[trigger] actions_spec(config, request)[k]).action,
            ),
{
    if request.raises() {
        let standard = standard_spec(config, request, fractions_of(config, request).len());
        lemma_standard(config, request, fractions_of(config, request).len());
        lemma_observed(config, request, standard, request.observed.len());
        let seen = observed_spec(config, request, standard, request.observed.len());
        lemma_merged(
            request,
            seen,
            AggressiveSizing { amount: request.stack, source: SizingSource::Forced },
            config.merge_log_ratio,
        );
        let sizings = sizings_spec(config, request);
        lemma_reordered(request, sizings, amount_keys(sizings));
        let sorted = by_amount(sizings);
        lemma_deduped(request, sorted, sorted.len());
        let distinct = deduped(sorted, sorted.len());
        lemma_reordered(request, distinct, keep_keys(request, distinct));
        let most = if config.max_aggressive_actions == 0 {
            1
        } else {
            config.max_aggressive_actions as int
        };
        if distinct.len() > most {
            let kept = reordered(distinct, sorting(keep_keys(request, distinct))).take(most);
            assert(all_within(request, kept));
            lemma_reordered(request, kept, amount_keys(kept));
        }
        let kept = pruned(config, request, distinct);
        assert(all_within(request, kept));
        let front = passive_spec(request);
        let back = aggressive_spec(config, request);
        let all = actions_spec(config, request);
        assert forall|k: int| 0 <= k < all.len() implies suits_request(
            request,
            (#[trigger] all[k]).action,
        ) by {
            if k >= front.len() {
                assert(all[k] == back[k - front.len()]);
                assert(request.to_call < kept[k - front.len()].amount <= request.stack);
            }
        }
    }
}

/// Whether the lists of a configuration can be numbered with room for one more.
pub open spec fn lists_fit<S>(config: ActionSetConfig<S>) -> bool {
    &&& config.flop_bet_fractions@.len() < usize::MAX
    &&& config.turn_bet_fractions@.len() < usize::MAX
    &&& config.river_bet_fractions@.len() < usize::MAX
    &&& config.raise_fractions@.len() < usize::MAX
}

/// A hand whose chips fit together can be played out, whatever is offered.
pub proof fn fitting_states_play_out<S: Scalar>(config: SubgameTreeConfig<S>, state: PublicState)
    requires
        state.fits(),
        lists_fit(config.action_set),
    ensures
        plays_out(config, state),
    decreases
        2 * (2 - state.street.place()) + 1,
        raises_left(config, state),
        checks_left(state),
        1int,
        0int,
{
    if !is_over(state) {
        let request = request_of(state);
        let all = actions_spec(config.action_set, request);
        let actions = state_actions(config, state);
        offered_actions_suit(config.action_set, request);
        lemma_passive_only(all, all.len());
        assert forall|k: int| 0 <= k < actions.len() implies suits_request(
            request,
            (#[trigger] actions[k]).action,
        ) by {
            if state.raises_this_street >= config.max_raises_per_street {
                assert(all.contains(actions[k]));
                let j = choose|j: int| 0 <= j < all.len() && all[j] == actions[k];
                assert(suits_request(request, all[j].action));
            }
        }
        lemma_actions_play(config, state, actions, actions.len());
    }
}

proof fn lemma_actions_play<S: Scalar>(
    config: SubgameTreeConfig<S>,
    state: PublicState,
    actions: Seq<ActionCandidate>,
    n: nat,
)
    requires
        state.fits(),
        lists_fit(config.action_set),
        n <= actions.len(),
        forall|k: int|
            0 <= k < actions.len() ==> suits_request(
                request_of(state),
                (#[trigger] actions[k]).action,
            ),
    ensures
        actions_play_out(config, state, actions, n),
    decreases
        2 * (2 - state.street.place()) + 1,
        raises_left(config, state),
        checks_left(state),
        0int,
        n,
{
    if n > 0 {
        lemma_actions_play(config, state, actions, (n - 1) as nat);
        let action = actions[n - 1].action;
        assert(suits_request(request_of(state), actions[n - 1].action));
        match action {
            PlayerAction::Fold => {},
            PlayerAction::Call { amount } => {
                passive_actions_settle(state, action);
                lemma_cards_play(config, passed(state, action));
            },
            PlayerAction::Check => {
                if advances(state, action) {
                    lemma_cards_play(config, passed(state, action));
                } else {
                    passive_actions_settle(state, action);
                    fitting_states_play_out(config, passed(state, action));
                }
            },
            PlayerAction::Bet { amount } => {
                lemma_bet_plays(config, state, amount);
            },
            PlayerAction::Raise { amount } => {
                lemma_bet_plays(config, state, amount);
            },
            PlayerAction::AllIn { amount } => {
                lemma_bet_plays(config, state, amount);
            },
        }
        assert(action_plays_out(config, state, action));
    }
}

proof fn lemma_bet_plays<S: Scalar>(config: SubgameTreeConfig<S>, state: PublicState, amount: u32)
    requires
        state.fits(),
        lists_fit(config.action_set),
        state.to_call < amount <= state.effective_stack,
    ensures
        state.raises_this_street < config.max_raises_per_street ==> plays_out(
            config,
            pressed(state, amount),
        ),
    decreases
        2 * (2 - state.street.place()) + 1,
        raises_left(config, state),
        checks_left(state),
        0int,
        0int,
{
    bets_can_be_called(state, amount);
    if state.raises_this_street < config.max_raises_per_street {
        fitting_states_play_out(config, pressed(state, amount));
    }
}

proof fn lemma_cards_play<S: Scalar>(config: SubgameTreeConfig<S>, state: PublicState)
    requires
        state.pot > 0,
        state.board.wf(),
        state.board@.len() + 2 - state.street.place() <= 5,
        state.hero_invested == state.villain_invested,
        lists_fit(config.action_set),
    ensures
        cards_play_out(config, state),
    decreases 2 * (2 - state.street.place()), 0int, 0int, 1int, 0int,
{
    if state.street != Street::River {
        let cards = deck_without(state.board@);
        deck_without_facts(state.board@);
        lemma_each_card_plays(config, state, cards, cards.len());
    }
}

proof fn lemma_each_card_plays<S: Scalar>(
    config: SubgameTreeConfig<S>,
    state: PublicState,
    cards: Seq<Card>,
    n: nat,
)
    requires
        state.street != Street::River,
        state.pot > 0,
        state.board.wf(),
        state.board@.len() + 2 - state.street.place() <= 5,
        state.hero_invested == state.villain_invested,
        lists_fit(config.action_set),
        n <= cards.len(),
        forall|i: int| 0 <= i < cards.len() ==> !state.board@.contains(#[trigger] cards[i]),
    ensures
        each_card_plays_out(config, state, cards, n),
    decreases 2 * (2 - state.street.place()), 0int, 0int, 0int, n,
{
    if n > 0 {
        lemma_each_card_plays(config, state, cards, (n - 1) as nat);
        assert(!state.board@.contains(cards[n - 1]));
        state.board.card_can_be_added(cards[n - 1]);
        fitting_states_play_out(config, dealt(state, state.board.with_card_spec(cards[n - 1])));
    }
}

} // verus!
