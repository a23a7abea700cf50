//! The actions that an abstraction offers in a state, and what they lead to.
use vstd::prelude::*;
use crate::arith::{capped, capped_product, floored, greater, lesser, max_u32, min_u32};
use crate::betting::{
    bet_of, bet_or_all_in, commit_chips, commit_for, geometric, geometric_bet_amount,
    geometric_streets, inserted, merge_bet_actions, merged, merged_below, push_unique_action,
    raise_streets, sized, sized_amount, sort_and_dedup_no_call_actions, sort_and_dedup_response_actions,
    sorted_actions, sorted_and_deduped, stack_for, stack_to_pot, streets_for_geometric,
    streets_for_raise_geometric, to_call, with_action, with_chips, without_runs,
};
use crate::scalar::Scalar;
use crate::tree::{
    ActionAbstraction, ActionKind, BetSizeSpec, Player, PublicState, RaiseSizeSpec, Street,
    StreetTemplate, TerminalReason,
};

verus! {

/// What an action leads to.
#[derive(Clone, Copy, Debug)]
pub enum Transition {
    State(PublicState),
    Chance(PublicState),
    Terminal(PublicState, TerminalReason),
}

impl<S: Scalar> ActionAbstraction<S> {
    /// An action, or all in if it leaves little of the stack beside the pot.
    pub open spec fn forced(self, state: PublicState, action: ActionKind) -> ActionKind {
        let actor = state.commit(state.player);
        let opponent = state.commit(state.player.other_spec());
        let stack = state.stack(state.player);
        let close = |additional: int, pot_if_called: int|
            {
                let remaining = floored(stack - additional);
                remaining <= S::from_u32_spec(pot_if_called as u32).times_spec(
                    self.raise.force_all_in_threshold,
                ).round_u32_spec()
            };
        let all_in = ActionKind::AllIn { to: (actor + stack) as u32 };
        if S::zero_spec().at_least_spec(self.raise.force_all_in_threshold) {
            action
        } else {
            match action {
                ActionKind::Bet { amount } => if close(
                    amount as int,
                    capped(state.pot + capped(amount * 2)),
                ) {
                    all_in
                } else {
                    action
                },
                ActionKind::Raise { to } => if close(
                    floored(to - actor),
                    capped(
                        capped(state.pot + lesser(state.owed() as int, stack as int)) + capped(
                            floored(to - opponent) * 2,
                        ),
                    ),
                ) {
                    all_in
                } else {
                    action
                },
                _ => action,
            }
        }
    }

    /// The action that takes a bet's place: all in where little would be left.
    pub fn force_all_in_if_close(&self, state: &PublicState, action: ActionKind) -> (r: ActionKind)
        requires
            state.counts(),
        ensures
            r == self.forced(*state, action),
    {
        let threshold: S = self.raise.force_all_in_threshold;
        if S::zero().at_least(threshold) {
            return action;
        }
        let actor: u32 = commit_for(state, state.player);
        let opponent: u32 = commit_for(state, state.player.other());
        let stack: u32 = stack_for(state, state.player);
        let (additional, pot_if_called): (u32, u32) = match action {
            ActionKind::Bet { amount } => (
                amount,
                state.pot.saturating_add(capped_product(amount, 2)),
            ),
            ActionKind::Raise { to } => {
                let owed: u32 = min_u32(opponent.saturating_sub(actor), stack);
                let delta: u32 = to.saturating_sub(opponent);
                (
                    to.saturating_sub(actor),
                    state.pot.saturating_add(owed).saturating_add(capped_product(delta, 2)),
                )
            },
            _ => {
                return action;
            },
        };
        let remaining: u32 = stack.saturating_sub(additional);
        let close: u32 = S::from_u32(pot_if_called).times(threshold).round_u32();
        if remaining <= close {
            ActionKind::AllIn { to: actor + stack }
        } else {
            action
        }
    }

    /// The bet of a size.
    pub open spec fn bet_spec(self, state: PublicState, size: BetSizeSpec<S>) -> ActionKind {
        let stack = state.stack(state.player);
        let amount = match size {
            BetSizeSpec::PotFraction(fraction) => sized(state.pot, fraction, self.min_bet, stack),
            BetSizeSpec::Geometric { streets, max_pot_fraction } => geometric(
                state.pot,
                stack,
                geometric_streets(state.street, streets),
                max_pot_fraction,
                self.min_bet,
            ),
            BetSizeSpec::AllIn => stack,
        };
        self.forced(state, bet_of(amount, stack))
    }

    /// The bet of a size.
    pub fn bet_action(&self, state: &PublicState, size: BetSizeSpec<S>) -> (r: ActionKind)
        requires
            state.counts(),
        ensures
            r == self.bet_spec(*state, size),
    {
        let stack: u32 = stack_for(state, state.player);
        let amount: u32 = match size {
            BetSizeSpec::PotFraction(fraction) => sized_amount(
                state.pot,
                fraction,
                self.min_bet,
                stack,
            ),
            BetSizeSpec::Geometric { streets, max_pot_fraction } => geometric_bet_amount(
                state.pot,
                stack,
                streets_for_geometric(state.street, streets),
                max_pot_fraction,
                self.min_bet,
            ),
            BetSizeSpec::AllIn => stack,
        };
        self.force_all_in_if_close(state, bet_or_all_in(amount, stack))
    }

    /// What a raise of a size comes to, at least the minimum raise.
    pub open spec fn raise_target(self, state: PublicState, size: RaiseSizeSpec<S>) -> int {
        let actor = state.commit(state.player);
        let opponent = state.commit(state.player.other_spec());
        let stack = state.stack(state.player);
        let called = (state.pot + lesser(state.owed() as int, stack as int)) as u32;
        let wanted = match size {
            RaiseSizeSpec::PotFraction(fraction) => capped(
                opponent + S::from_u32_spec(called).times_spec(fraction).round_u32_spec(),
            ),
            RaiseSizeSpec::PreviousBetMultiplier(multiplier) => S::from_u32_spec(
                opponent,
            ).times_spec(multiplier).round_u32_spec() as int,
            RaiseSizeSpec::Geometric { streets, max_pot_fraction } => capped(
                opponent + geometric(
                    called,
                    floored(stack - state.owed()) as u32,
                    raise_streets(state.street, streets, state.raises_this_street),
                    max_pot_fraction,
                    self.min_bet,
                ),
            ),
            RaiseSizeSpec::AllIn => actor + stack,
        };
        greater(
            wanted,
            capped(opponent + greater(state.last_raise_size as int, self.min_bet as int)),
        )
    }

    /// The raise of a size: all in where it takes the stack, leaves little beside the pot, or puts most
    /// of the stack in.
    pub open spec fn raise_spec(self, state: PublicState, size: RaiseSizeSpec<S>) -> ActionKind {
        let actor = state.commit(state.player);
        let stack = state.stack(state.player);
        let called = (state.pot + lesser(state.owed() as int, stack as int)) as u32;
        let target = self.raise_target(state, size);
        let additional = floored(target - actor) as u32;
        let left = floored(stack - additional) as u32;
        if target >= actor + stack || self.raise.shove_spr_threshold.at_least_spec(
            stack_to_pot::<S>(left, called),
        ) || S::from_u32_spec(additional).at_least_spec(
            S::from_u32_spec(stack).times_spec(self.raise.shove_commit_fraction),
        ) {
            ActionKind::AllIn { to: (actor + stack) as u32 }
        } else {
            self.forced(state, ActionKind::Raise { to: target as u32 })
        }
    }

    /// The raise of a size.
    pub fn raise_action_for_size(&self, state: &PublicState, size: RaiseSizeSpec<S>) -> (r: Option<
        ActionKind,
    >)
        requires
            state.counts(),
        ensures
            r == Some(self.raise_spec(*state, size)),
    {
        let actor: u32 = commit_for(state, state.player);
        let opponent: u32 = commit_for(state, state.player.other());
        let stack: u32 = stack_for(state, state.player);
        let owed: u32 = opponent.saturating_sub(actor);
        let min_raise_to: u32 = opponent.saturating_add(max_u32(state.last_raise_size, self.min_bet));
        let max_to: u32 = actor + stack;
        let called: u32 = state.pot + min_u32(owed, stack);
        let wanted: u32 = match size {
            RaiseSizeSpec::PotFraction(fraction) => opponent.saturating_add(
                S::from_u32(called).times(fraction).round_u32(),
            ),
            RaiseSizeSpec::PreviousBetMultiplier(multiplier) => S::from_u32(opponent).times(
                multiplier,
            ).round_u32(),
            RaiseSizeSpec::Geometric { streets, max_pot_fraction } => opponent.saturating_add(
                geometric_bet_amount(
                    called,
                    stack.saturating_sub(owed),
                    streets_for_raise_geometric(state.street, streets, state.raises_this_street),
                    max_pot_fraction,
                    self.min_bet,
                ),
            ),
            RaiseSizeSpec::AllIn => max_to,
        };
        let target: u32 = max_u32(wanted, min_raise_to);
        if target >= max_to {
            return Some(ActionKind::AllIn { to: max_to });
        }
        let additional: u32 = target.saturating_sub(actor);
        let left: u32 = stack.saturating_sub(additional);
        let spr: S = if called == 0 {
            S::infinity()
        } else {
            S::from_u32(left).over(S::from_u32(called))
        };
        if self.raise.shove_spr_threshold.at_least(spr) || S::from_u32(additional).at_least(
            S::from_u32(stack).times(self.raise.shove_commit_fraction),
        ) {
            return Some(ActionKind::AllIn { to: max_to });
        }
        Some(self.force_all_in_if_close(state, ActionKind::Raise { to: target }))
    }

    /// The raises of the first `n` sizes.
    pub open spec fn raises_below(self, state: PublicState, n: nat) -> Seq<ActionKind>
        decreases n,
    {
        if n == 0 {
            Seq::empty()
        } else {
            self.raises_below(state, (n - 1) as nat).push(
                self.raise_spec(state, self.raise.raise_sizes@[n - 1]),
            )
        }
    }

    /// The raises of all sizes, or of the multiplier if no size is given.
    pub open spec fn raises_spec(self, state: PublicState) -> Seq<ActionKind> {
        if self.raise.raise_sizes@.len() == 0 {
            seq![
                self.raise_spec(
                    state,
                    RaiseSizeSpec::PreviousBetMultiplier(self.raise.raise_multiplier),
                ),
            ]
        } else {
            self.raises_below(state, self.raise.raise_sizes@.len())
        }
    }

    /// The raises of all sizes, or of the multiplier if no size is given.
    pub fn raise_actions(&self, state: &PublicState) -> (r: Vec<ActionKind>)
        requires
            state.counts(),
        ensures
            r@ == self.raises_spec(*state),
    {
        let mut actions: Vec<ActionKind> = Vec::new();
        if self.raise.raise_sizes.len() == 0 {
            if let Some(action) = self.raise_action_for_size(
                state,
                RaiseSizeSpec::PreviousBetMultiplier(self.raise.raise_multiplier),
            ) {
                actions.push(action);
            }
            return actions;
        }
        for i in 0..self.raise.raise_sizes.len()
            invariant
                state.counts(),
                actions@ == self.raises_below(*state, i as nat),
        {
            if let Some(action) = self.raise_action_for_size(state, self.raise.raise_sizes[i]) {
                actions.push(action);
            }
        }
        actions
    }

    /// Whether an all-in is offered beside the bets: the stack is small beside the pot.
    pub open spec fn adds_all_in(self, state: PublicState) -> bool {
        let threshold = self.raise.add_all_in_threshold;
        threshold.exceeds_spec(S::zero_spec()) && S::from_u32_spec(state.pot).times_spec(
            threshold,
        ).at_least_spec(S::from_u32_spec(state.stack(state.player)))
    }

    /// Whether an all-in is offered beside the bets: the stack is small beside the pot.
    pub fn add_threshold_all_in_allowed(&self, state: &PublicState) -> (r: bool)
        ensures
            r == self.adds_all_in(*state),
    {
        let threshold: S = self.raise.add_all_in_threshold;
        threshold.exceeds(S::zero()) && S::from_u32(state.pot).times(threshold).at_least(
            S::from_u32(stack_for(state, state.player)),
        )
    }

    /// The all-in that is offered beside the raises: where the stack is small beside the called pot.
    pub open spec fn added_all_in(self, state: PublicState) -> Option<ActionKind> {
        let threshold = self.raise.add_all_in_threshold;
        let actor = state.commit(state.player);
        let opponent = state.commit(state.player.other_spec());
        let stack = state.stack(state.player);
        let called = capped(state.pot + lesser(state.owed() as int, stack as int)) as u32;
        let bound = capped(
            opponent + S::from_u32_spec(called).times_spec(threshold).round_u32_spec(),
        );
        if S::zero_spec().at_least_spec(threshold) || stack <= state.owed() || actor + stack > bound {
            None
        } else {
            Some(ActionKind::AllIn { to: (actor + stack) as u32 })
        }
    }

    /// The all-in that is offered beside the raises.
    pub fn threshold_all_in_raise_response(&self, state: &PublicState) -> (r: Option<ActionKind>)
        requires
            state.counts(),
        ensures
            r == self.added_all_in(*state),
    {
        let threshold: S = self.raise.add_all_in_threshold;
        if S::zero().at_least(threshold) {
            return None;
        }
        let actor: u32 = commit_for(state, state.player);
        let opponent: u32 = commit_for(state, state.player.other());
        let stack: u32 = stack_for(state, state.player);
        let owed: u32 = opponent.saturating_sub(actor);
        if stack <= owed {
            return None;
        }
        let max_to: u32 = actor + stack;
        let called: u32 = state.pot.saturating_add(min_u32(owed, stack));
        let bound: u32 = opponent.saturating_add(S::from_u32(called).times(threshold).round_u32());
        if max_to <= bound {
            Some(ActionKind::AllIn { to: max_to })
        } else {
            None
        }
    }

    /// The bets considered in a state.
    pub open spec fn bet_sizes(self, state: PublicState) -> Seq<BetSizeSpec<S>> {
        let template = match state.street {
            Street::Flop => self.flop,
            Street::Turn => self.turn,
            Street::River => self.river,
        };
        if state.can_donk && template.donk_bet_sizes@.len() > 0 {
            template.donk_bet_sizes@
        } else {
            template.first_bet_sizes@
        }
    }

    /// A list with the bets of the first `n` sizes added.
    pub open spec fn with_bets(self, state: PublicState, list: Seq<ActionKind>, n: nat) -> Seq<
        ActionKind,
    >
        decreases n,
    {
        if n == 0 {
            list
        } else {
            with_action(
                self.with_bets(state, list, (n - 1) as nat),
                self.bet_spec(state, self.bet_sizes(state)[n - 1]),
            )
        }
    }

    /// The openings before they are sorted.
    pub open spec fn openings(self, state: PublicState) -> Seq<ActionKind> {
        let bets = self.with_bets(state, seq![ActionKind::Check], self.bet_sizes(state).len());
        if self.adds_all_in(state) {
            with_action(bets, ActionKind::AllIn { to: state.stack(state.player) })
        } else {
            bets
        }
    }

    /// The answers to a bet that do not raise.
    pub open spec fn plain_answers(state: PublicState) -> Seq<ActionKind> {
        seq![
            ActionKind::Fold,
            ActionKind::Call {
                amount: lesser(state.owed() as int, state.stack(state.player) as int) as u32,
            },
        ]
    }

    /// A list with the first `n` actions of another added.
    pub open spec fn with_all(list: Seq<ActionKind>, more: Seq<ActionKind>, n: nat) -> Seq<ActionKind>
        decreases n,
    {
        if n == 0 {
            list
        } else {
            with_action(Self::with_all(list, more, (n - 1) as nat), more[n - 1])
        }
    }

    /// The answers to a bet before they are sorted.
    pub open spec fn answers(self, state: PublicState) -> Seq<ActionKind> {
        let raises = self.raises_spec(state);
        let list = Self::with_all(Self::plain_answers(state), raises, raises.len());
        match self.added_all_in(state) {
            Some(all_in) => with_action(list, all_in),
            None => list,
        }
    }

    /// The actions offered in a state: none without chips; fold, call and the raises against a bet; else
    /// check and the bets.
    pub open spec fn legal(self, state: PublicState) -> Seq<ActionKind> {
        let stack = state.stack(state.player);
        if stack == 0 {
            Seq::empty()
        } else if state.owed() > 0 {
            if state.raises_this_street < self.raise.max_raises_per_street && stack > state.owed() {
                merged(
                    sorted_and_deduped(true, self.answers(state)),
                    (state.pot + lesser(state.owed() as int, stack as int)) as u32,
                    state.commit(state.player.other_spec()),
                    self.raise.merging_threshold,
                )
            } else {
                Self::plain_answers(state)
            }
        } else {
            merged(
                sorted_and_deduped(false, self.openings(state)),
                state.pot,
                0,
                self.raise.merging_threshold,
            )
        }
    }

    /// The actions offered in a state.
    pub fn legal_actions(&self, state: &PublicState) -> (r: Vec<ActionKind>)
        requires
            state.counts(),
        ensures
            r@ == self.legal(*state),
    {
        let owed: u32 = to_call(state);
        let stack: u32 = stack_for(state, state.player);
        if stack == 0 {
            return Vec::new();
        }
        if owed > 0 {
            let mut actions: Vec<ActionKind> = Vec::new();
            actions.push(ActionKind::Fold);
            actions.push(ActionKind::Call { amount: min_u32(owed, stack) });
            proof {
                assert(actions@ =~= Self::plain_answers(*state));
            }
            if state.raises_this_street < self.raise.max_raises_per_street && stack > owed {
                let raises: Vec<ActionKind> = self.raise_actions(state);
                for i in 0..raises.len()
                    invariant
                        actions@ == Self::with_all(Self::plain_answers(*state), raises@, i as nat),
                {
                    push_unique_action(&mut actions, raises[i]);
                }
                if let Some(all_in) = self.threshold_all_in_raise_response(state) {
                    push_unique_action(&mut actions, all_in);
                }
                let opponent: u32 = commit_for(state, state.player.other());
                actions =
                merge_bet_actions(
                    sort_and_dedup_response_actions(actions),
                    state.pot + min_u32(owed, stack),
                    opponent,
                    self.raise.merging_threshold,
                );
            }
            return actions;
        }
        let mut actions: Vec<ActionKind> = Vec::new();
        actions.push(ActionKind::Check);
        proof {
            assert(actions@ =~= seq![ActionKind::Check]);
        }
        let template: &StreetTemplate<S> = match state.street {
            Street::Flop => &self.flop,
            Street::Turn => &self.turn,
            Street::River => &self.river,
        };
        let sizes: &Vec<BetSizeSpec<S>> = if state.can_donk && template.donk_bet_sizes.len() > 0 {
            &template.donk_bet_sizes
        } else {
            &template.first_bet_sizes
        };
        for i in 0..sizes.len()
            invariant
                state.counts(),
                sizes@ == self.bet_sizes(*state),
                actions@ == self.with_bets(*state, seq![ActionKind::Check], i as nat),
        {
            let bet: ActionKind = self.bet_action(state, sizes[i]);
            push_unique_action(&mut actions, bet);
        }
        if self.add_threshold_all_in_allowed(state) {
            push_unique_action(&mut actions, ActionKind::AllIn { to: stack });
        }
        merge_bet_actions(
            sort_and_dedup_no_call_actions(actions),
            state.pot,
            0,
            self.raise.merging_threshold,
        )
    }
}

/// What follows when a street is over: the end of the hand if a stack is empty or the street was the
/// last, else the next street's card.
pub open spec fn street_closed(state: PublicState, can_donk_next_street: bool) -> Transition {
    if state.oop_stack == 0 || state.ip_stack == 0 {
        Transition::Terminal(state, TerminalReason::AllIn)
    } else {
        match state.street.next_spec() {
            None => Transition::Terminal(state, TerminalReason::Showdown),
            Some(street) => Transition::Chance(
                PublicState {
                    street,
                    oop_street_commit: 0,
                    ip_street_commit: 0,
                    last_raise_size: 0,
                    raises_this_street: 0,
                    checks_this_street: 0,
                    can_donk: can_donk_next_street,
                    player: Player::Oop,
                    ..state
                },
            ),
        }
    }
}

/// What follows when a street is over.
pub fn close_street(state: &PublicState, can_donk_next_street: bool) -> (r: Transition)
    ensures
        r == street_closed(*state, can_donk_next_street),
{
    if state.oop_stack == 0 || state.ip_stack == 0 {
        return Transition::Terminal(*state, TerminalReason::AllIn);
    }
    match state.street.next() {
        None => Transition::Terminal(*state, TerminalReason::Showdown),
        Some(street) => {
            let mut next: PublicState = *state;
            next.street = street;
            next.oop_street_commit = 0;
            next.ip_street_commit = 0;
            next.last_raise_size = 0;
            next.raises_this_street = 0;
            next.checks_this_street = 0;
            next.can_donk = can_donk_next_street;
            next.player = Player::Oop;
            Transition::Chance(next)
        },
    }
}

/// What an action leads to.
pub open spec fn transition(state: PublicState, action: ActionKind) -> Transition {
    let opponent = state.player.other_spec();
    match action {
        ActionKind::Fold => Transition::Terminal(state, TerminalReason::Fold),
        ActionKind::Check => if state.checks_this_street >= 1 {
            street_closed(state, false)
        } else {
            Transition::State(
                PublicState {
                    checks_this_street: (state.checks_this_street + 1) as u8,
                    can_donk: false,
                    player: opponent,
                    ..state
                },
            )
        },
        ActionKind::Call { amount } => street_closed(
            with_chips(state, state.player, amount),
            state.player == Player::Oop && state.owed() > 0,
        ),
        ActionKind::Bet { amount } => Transition::State(
            PublicState {
                can_donk: false,
                last_raise_size: amount,
                player: opponent,
                ..with_chips(state, state.player, amount)
            },
        ),
        ActionKind::Raise { to } => {
            let paid = floored(to - state.commit(state.player)) as u32;
            Transition::State(
                PublicState {
                    last_raise_size: floored(to - state.commit(opponent)) as u32,
                    raises_this_street: (state.raises_this_street + 1) as u8,
                    can_donk: false,
                    player: opponent,
                    ..with_chips(state, state.player, paid)
                },
            )
        },
        ActionKind::AllIn { to } => {
            let paid = floored(to - state.commit(state.player)) as u32;
            let next = with_chips(state, state.player, paid);
            if next.commit(opponent) == next.commit(state.player) {
                Transition::Terminal(next, TerminalReason::AllIn)
            } else {
                Transition::State(
                    PublicState {
                        raises_this_street: (state.raises_this_street + 1) as u8,
                        can_donk: false,
                        player: opponent,
                        ..next
                    },
                )
            }
        },
    }
}

/// Whether raising once more fits the counter of raises.
pub open spec fn raise_counts(state: PublicState, action: ActionKind) -> bool {
    (action is Raise || action is AllIn) ==> state.raises_this_street < 255
}

/// What an action leads to.
pub fn apply_action(state: &PublicState, action: ActionKind) -> (r: Transition)
    requires
        state.counts(),
        raise_counts(*state, action),
    ensures
        r == transition(*state, action),
{
    match action {
        ActionKind::Fold => Transition::Terminal(*state, TerminalReason::Fold),
        ActionKind::Check => {
            if state.checks_this_street >= 1 {
                return close_street(state, false);
            }
            let mut next: PublicState = *state;
            next.checks_this_street = next.checks_this_street + 1;
            next.can_donk = false;
            next.player = next.player.other();
            Transition::State(next)
        },
        ActionKind::Call { amount } => {
            let mut next: PublicState = *state;
            let can_donk_next_street: bool = state.player == Player::Oop && to_call(state) > 0;
            commit_chips(&mut next, state.player, amount);
            close_street(&next, can_donk_next_street)
        },
        ActionKind::Bet { amount } => {
            let mut next: PublicState = *state;
            commit_chips(&mut next, state.player, amount);
            next.can_donk = false;
            next.last_raise_size = amount;
            next.player = next.player.other();
            Transition::State(next)
        },
        ActionKind::Raise { to } => {
            let mut next: PublicState = *state;
            let current: u32 = commit_for(&next, state.player);
            let opponent: u32 = commit_for(&next, state.player.other());
            commit_chips(&mut next, state.player, to.saturating_sub(current));
            next.last_raise_size = to.saturating_sub(opponent);
            next.raises_this_street = next.raises_this_street + 1;
            next.can_donk = false;
            next.player = next.player.other();
            Transition::State(next)
        },
        ActionKind::AllIn { to } => {
            let mut next: PublicState = *state;
            let current: u32 = commit_for(&next, state.player);
            commit_chips(&mut next, state.player, to.saturating_sub(current));
            let opponent: u32 = commit_for(&next, state.player.other());
            let actor: u32 = commit_for(&next, state.player);
            if opponent == actor {
                Transition::Terminal(next, TerminalReason::AllIn)
            } else {
                next.raises_this_street = next.raises_this_street + 1;
                next.can_donk = false;
                next.player = next.player.other();
                Transition::State(next)
            }
        },
    }
}

/// Whether an action suits a state: nobody checks or bets against a bet, calls are for what is owed, and
/// bets, raises and all-ins put chips in beyond what is owed.
pub open spec fn suits(state: PublicState, action: ActionKind) -> bool {
    let actor = state.commit(state.player);
    let opponent = state.commit(state.player.other_spec());
    let stack = state.stack(state.player);
    match action {
        ActionKind::Fold => state.owed() > 0,
        ActionKind::Call { amount } => state.owed() > 0 && amount == lesser(
            state.owed() as int,
            stack as int,
        ),
        ActionKind::Check => state.owed() == 0,
        ActionKind::Bet { amount } => state.owed() == 0 && 0 < amount < stack,
        ActionKind::Raise { to } => state.owed() < stack && opponent < to < actor + stack
            && state.raises_this_street < 255,
        ActionKind::AllIn { to } => state.owed() < stack && to == actor + stack
            && state.raises_this_street < 255,
    }
}

/// Whether all actions of a list suit a state.
pub open spec fn all_suit(state: PublicState, actions: Seq<ActionKind>) -> bool {
    forall|i: int| 0 <= i < actions.len() ==> suits(state, #[trigger] actions[i])
}

proof fn lemma_with_action(state: PublicState, list: Seq<ActionKind>, action: ActionKind)
    requires
        all_suit(state, list),
        suits(state, action),
    ensures
        all_suit(state, with_action(list, action)),
{
}

proof fn lemma_inserted(state: PublicState, response: bool, list: Seq<ActionKind>, action: ActionKind)
    requires
        all_suit(state, list),
        suits(state, action),
    ensures
        all_suit(state, inserted(response, list, action)),
    decreases list.len(),
{
    if list.len() > 0 {
        assert(all_suit(state, list.drop_last()));
        lemma_inserted(state, response, list.drop_last(), action);
        assert(suits(state, list[list.len() - 1]));
    }
}

proof fn lemma_sorted(state: PublicState, response: bool, actions: Seq<ActionKind>, n: nat)
    requires
        n <= actions.len(),
        all_suit(state, actions),
    ensures
        all_suit(state, sorted_actions(response, actions, n)),
    decreases n,
{
    if n > 0 {
        lemma_sorted(state, response, actions, (n - 1) as nat);
        lemma_inserted(
            state,
            response,
            sorted_actions(response, actions, (n - 1) as nat),
            actions[n - 1],
        );
    }
}

proof fn lemma_without_runs(state: PublicState, actions: Seq<ActionKind>, n: nat)
    requires
        n <= actions.len(),
        all_suit(state, actions),
    ensures
        all_suit(state, without_runs(actions, n)),
    decreases n,
{
    if n > 0 {
        lemma_without_runs(state, actions, (n - 1) as nat);
        assert(suits(state, actions[n - 1]));
    }
}

proof fn lemma_merged_below<S: Scalar>(
    state: PublicState,
    actions: Seq<ActionKind>,
    pot: u32,
    offset: u32,
    threshold: S,
    current: u32,
    n: nat,
)
    requires
        n <= actions.len(),
        all_suit(state, actions),
    ensures
        all_suit(state, merged_below(actions, pot, offset, threshold, current, n)),
    decreases n,
{
    if n > 0 {
        assert(suits(state, actions[n - 1]));
        lemma_merged_below(state, actions, pot, offset, threshold, current, (n - 1) as nat);
        if let Some(amount) = crate::betting::size_of_action(actions[n - 1]) {
            lemma_merged_below(state, actions, pot, offset, threshold, amount, (n - 1) as nat);
        }
    }
}

proof fn lemma_tidied<S: Scalar>(
    state: PublicState,
    response: bool,
    actions: Seq<ActionKind>,
    pot: u32,
    offset: u32,
    threshold: S,
)
    requires
        all_suit(state, actions),
    ensures
        all_suit(state, merged(sorted_and_deduped(response, actions), pot, offset, threshold)),
{
    lemma_sorted(state, response, actions, actions.len());
    let sorted = sorted_actions(response, actions, actions.len());
    lemma_without_runs(state, sorted, sorted.len());
    let kept = without_runs(sorted, sorted.len());
    lemma_merged_below(state, kept, pot, offset, threshold, u32::MAX, kept.len());
}

impl<S: Scalar> ActionAbstraction<S> {
    proof fn lemma_forced(self, state: PublicState, action: ActionKind)
        requires
            state.is_sound(),
            suits(state, action),
            state.raises_this_street < 255,
        ensures
            suits(state, self.forced(state, action)),
    {
    }

    proof fn lemma_bets(self, state: PublicState, n: nat)
        requires
            state.is_sound(),
            state.owed() == 0,
            state.stack(state.player) > 0,
            self.min_bet > 0,
            n <= self.bet_sizes(state).len(),
        ensures
            all_suit(state, self.with_bets(state, seq![ActionKind::Check], n)),
        decreases n,
    {
        if n > 0 {
            self.lemma_bets(state, (n - 1) as nat);
            let size = self.bet_sizes(state)[n - 1];
            let stack = state.stack(state.player);
            let amount = match size {
                BetSizeSpec::PotFraction(fraction) => sized(state.pot, fraction, self.min_bet, stack),
                BetSizeSpec::Geometric { streets, max_pot_fraction } => geometric(
                    state.pot,
                    stack,
                    geometric_streets(state.street, streets),
                    max_pot_fraction,
                    self.min_bet,
                ),
                BetSizeSpec::AllIn => stack,
            };
            self.lemma_forced(state, bet_of(amount, stack));
            lemma_with_action(
                state,
                self.with_bets(state, seq![ActionKind::Check], (n - 1) as nat),
                self.bet_spec(state, size),
            );
        }
    }

    proof fn lemma_raise(self, state: PublicState, size: RaiseSizeSpec<S>)
        requires
            state.is_sound(),
            state.owed() > 0,
            state.stack(state.player) > state.owed(),
            state.raises_this_street < 255,
            self.min_bet > 0,
        ensures
            suits(state, self.raise_spec(state, size)),
    {
        let target = self.raise_target(state, size);
        if target < state.commit(state.player) + state.stack(state.player) {
            self.lemma_forced(state, ActionKind::Raise { to: target as u32 });
        }
    }

    proof fn lemma_raises(self, state: PublicState, n: nat)
        requires
            state.is_sound(),
            state.owed() > 0,
            state.stack(state.player) > state.owed(),
            state.raises_this_street < 255,
            self.min_bet > 0,
        ensures
            all_suit(state, self.raises_below(state, n)),
        decreases n,
    {
        if n > 0 {
            self.lemma_raises(state, (n - 1) as nat);
            self.lemma_raise(state, self.raise.raise_sizes@[n - 1]);
        }
    }

    proof fn lemma_with_all(state: PublicState, list: Seq<ActionKind>, more: Seq<ActionKind>, n: nat)
        requires
            n <= more.len(),
            all_suit(state, list),
            all_suit(state, more),
        ensures
            all_suit(state, Self::with_all(list, more, n)),
        decreases n,
    {
        if n > 0 {
            Self::lemma_with_all(state, list, more, (n - 1) as nat);
            lemma_with_action(state, Self::with_all(list, more, (n - 1) as nat), more[n - 1]);
        }
    }

    /// Every action offered in a sound state suits it.
    pub proof fn legal_actions_suit(self, state: PublicState)
        requires
            state.is_sound(),
            self.min_bet > 0,
        ensures
            all_suit(state, self.legal(state)),
    {
        let stack = state.stack(state.player);
        if stack > 0 {
            if state.owed() > 0 {
                assert(all_suit(state, Self::plain_answers(state)));
                if state.raises_this_street < self.raise.max_raises_per_street && stack
                    > state.owed() {
                    let raises = self.raises_spec(state);
                    if self.raise.raise_sizes@.len() == 0 {
                        self.lemma_raise(
                            state,
                            RaiseSizeSpec::PreviousBetMultiplier(self.raise.raise_multiplier),
                        );
                    } else {
                        self.lemma_raises(state, self.raise.raise_sizes@.len());
                    }
                    assert(all_suit(state, raises));
                    Self::lemma_with_all(state, Self::plain_answers(state), raises, raises.len());
                    assert(all_suit(state, self.answers(state)));
                    lemma_tidied(
                        state,
                        true,
                        self.answers(state),
                        (state.pot + lesser(state.owed() as int, stack as int)) as u32,
                        state.commit(state.player.other_spec()),
                        self.raise.merging_threshold,
                    );
                }
            } else {
                self.lemma_bets(state, self.bet_sizes(state).len());
                assert(all_suit(state, self.openings(state)));
                lemma_tidied(
                    state,
                    false,
                    self.openings(state),
                    state.pot,
                    0,
                    self.raise.merging_threshold,
                );
            }
        }
    }
}

/// What an action leads to keeps all chips of the hand, stays sound, and is nearer to the end of the
/// hand: on a later street, or with fewer chips behind, or after one more check.
pub proof fn transitions_keep_chips(state: PublicState, action: ActionKind)
    requires
        state.is_sound(),
        suits(state, action),
    ensures
        match transition(state, action) {
            Transition::State(next) => {
                &&& next.chips() == state.chips()
                &&& next.is_sound()
                &&& next.street == state.street
                &&& next.board == state.board
                &&& next.player == state.player.other_spec()
                &&& next.oop_stack + next.ip_stack < state.oop_stack + state.ip_stack || (
                next.oop_stack + next.ip_stack == state.oop_stack + state.ip_stack
                    && next.checks_this_street > state.checks_this_street)
            },
            Transition::Chance(next) => {
                &&& next.chips() == state.chips()
                &&& next.is_sound()
                &&& next.street.place() == state.street.place() + 1
                &&& next.board == state.board
                &&& next.player == Player::Oop
                &&& next.oop_stack == next.ip_stack
            },
            Transition::Terminal(end, reason) => {
                &&& end.chips() == state.chips()
                &&& end.board == state.board
                &&& end.counts()
                &&& reason == TerminalReason::Fold <==> action is Fold
            },
        },
{
}

} // verus!
