//! Betting: which actions a state offers and what they lead to.
use vstd::prelude::*;
use crate::arith::{floored, greater, lesser, max_u32, min_u32};
use crate::scalar::Scalar;
use crate::tree::{ActionKind, Player, PublicState, Street};

verus! {

impl PublicState {
    /// What a player put in on this street.
    pub open spec fn commit(self, player: Player) -> u32 {
        match player {
            Player::Oop => self.oop_street_commit,
            Player::Ip => self.ip_street_commit,
        }
    }

    /// What a player has left.
    pub open spec fn stack(self, player: Player) -> u32 {
        match player {
            Player::Oop => self.oop_stack,
            Player::Ip => self.ip_stack,
        }
    }

    /// What the player to act owes.
    pub open spec fn owed(self) -> u32 {
        floored(self.commit(self.player.other_spec()) - self.commit(self.player)) as u32
    }

    /// All chips of the hand.
    pub open spec fn chips(self) -> int {
        self.pot + self.oop_stack + self.ip_stack
    }

    /// The chips fit a counter and the pot holds what was put in on this street.
    pub open spec fn counts(self) -> bool {
        &&& self.chips() <= u32::MAX
        &&& self.oop_street_commit + self.ip_street_commit <= self.pot
    }

    /// A state of a hand between equal stacks: the player to act is not ahead, and while nothing is owed
    /// nothing was bet on this street.
    pub open spec fn is_sound(self) -> bool {
        &&& self.counts()
        &&& self.board.wf()
        &&& self.oop_stack + self.oop_street_commit == self.ip_stack + self.ip_street_commit
        &&& self.commit(self.player) <= self.commit(self.player.other_spec())
        &&& self.commit(self.player) == self.commit(self.player.other_spec())
            ==> self.raises_this_street == 0 && self.commit(self.player) == 0
        &&& self.checks_this_street <= 1
        &&& self.oop_stack > 0 || self.ip_stack > 0
    }
}

/// What the player to act owes.
pub fn to_call(state: &PublicState) -> (r: u32)
    ensures
        r == state.owed(),
{
    let actor: u32 = commit_for(state, state.player);
    let opponent: u32 = commit_for(state, state.player.other());
    opponent.saturating_sub(actor)
}

/// What a player put in on this street.
pub fn commit_for(state: &PublicState, player: Player) -> (r: u32)
    ensures
        r == state.commit(player),
{
    match player {
        Player::Oop => state.oop_street_commit,
        Player::Ip => state.ip_street_commit,
    }
}

/// What a player has left.
pub fn stack_for(state: &PublicState, player: Player) -> (r: u32)
    ensures
        r == state.stack(player),
{
    match player {
        Player::Oop => state.oop_stack,
        Player::Ip => state.ip_stack,
    }
}

/// A state after a player put in chips, at most what is left.
pub open spec fn with_chips(state: PublicState, player: Player, amount: u32) -> PublicState {
    let paid = lesser(amount as int, state.stack(player) as int);
    match player {
        Player::Oop => PublicState {
            pot: (state.pot + paid) as u32,
            oop_stack: (state.oop_stack - paid) as u32,
            oop_street_commit: (state.oop_street_commit + paid) as u32,
            ..state
        },
        Player::Ip => PublicState {
            pot: (state.pot + paid) as u32,
            ip_stack: (state.ip_stack - paid) as u32,
            ip_street_commit: (state.ip_street_commit + paid) as u32,
            ..state
        },
    }
}

/// Puts a player's chips in, at most what is left.
pub fn commit_chips(state: &mut PublicState, player: Player, amount: u32)
    requires
        old(state).counts(),
    ensures
        *final(state) == with_chips(*old(state), player, amount),
        final(state).counts(),
        final(state).chips() == old(state).chips(),
{
    let paid: u32 = min_u32(amount, stack_for(state, player));
    state.pot = state.pot + paid;
    match player {
        Player::Oop => {
            state.oop_stack = state.oop_stack - paid;
            state.oop_street_commit = state.oop_street_commit + paid;
        },
        Player::Ip => {
            state.ip_stack = state.ip_stack - paid;
            state.ip_street_commit = state.ip_street_commit + paid;
        },
    }
}

/// A share of the pot, at least the minimum bet and at most the stack.
pub open spec fn sized<S: Scalar>(pot: u32, fraction: S, min_bet: u32, stack: u32) -> u32 {
    lesser(
        greater(
            S::from_u32_spec(pot).times_spec(fraction).round_u32_spec() as int,
            min_bet as int,
        ),
        stack as int,
    ) as u32
}

/// A share of the pot, at least the minimum bet and at most the stack.
pub fn sized_amount<S: Scalar>(pot: u32, fraction: S, min_bet: u32, stack: u32) -> (r: u32)
    ensures
        r == sized(pot, fraction, min_bet, stack),
{
    let amount: u32 = S::from_u32(pot).times(fraction).round_u32();
    min_u32(max_u32(amount, min_bet), stack)
}

/// The ratio of stack to pot.
pub open spec fn stack_to_pot<S: Scalar>(stack: u32, pot: u32) -> S {
    if pot == 0 {
        S::infinity_spec()
    } else {
        S::from_u32_spec(stack).over_spec(S::from_u32_spec(pot))
    }
}

fn stack_to_pot_ratio<S: Scalar>(stack: u32, pot: u32) -> (r: S)
    ensures
        r == stack_to_pot::<S>(stack, pot),
{
    if pot == 0 {
        S::infinity()
    } else {
        S::from_u32(stack).over(S::from_u32(pot))
    }
}

/// The share of the pot that, bet and called on so many streets, puts the whole stack in.
pub open spec fn geometric_share<S: Scalar>(pot: u32, stack: u32, streets: u8) -> S {
    let two = S::from_u32_spec(2);
    let growth = two.times_spec(stack_to_pot::<S>(stack, pot)).plus_spec(S::one_spec());
    growth.root_spec(
        if streets == 0 {
            1
        } else {
            streets
        },
    ).minus_spec(S::one_spec()).over_spec(two)
}

/// The bet that, repeated on so many streets, puts the whole stack in; at most a share of the pot.
pub open spec fn geometric<S: Scalar>(
    pot: u32,
    stack: u32,
    streets: u8,
    max_pot_fraction: S,
    min_bet: u32,
) -> u32 {
    sized(pot, geometric_share::<S>(pot, stack, streets).min_spec(max_pot_fraction), min_bet, stack)
}

/// The bet that, repeated on so many streets, puts the whole stack in; at most a share of the pot.
pub fn geometric_bet_amount<S: Scalar>(
    pot: u32,
    stack: u32,
    streets: u8,
    max_pot_fraction: S,
    min_bet: u32,
) -> (r: u32)
    ensures
        r == geometric(pot, stack, streets, max_pot_fraction, min_bet),
{
    let degree: u8 = if streets == 0 {
        1
    } else {
        streets
    };
    let two: S = S::from_u32(2);
    let growth: S = two.times(stack_to_pot_ratio::<S>(stack, pot)).plus(S::one());
    let share: S = growth.root(degree).minus(S::one()).over(two);
    sized_amount(pot, share.min_of(max_pot_fraction), min_bet, stack)
}

/// How many streets a geometric bet spreads over: as configured, or those that are left.
pub open spec fn geometric_streets(street: Street, configured: u8) -> u8 {
    if configured > 0 {
        configured
    } else {
        (3 - street.place()) as u8
    }
}

/// How many streets a geometric bet spreads over: as configured, or those that are left.
pub fn streets_for_geometric(street: Street, configured: u8) -> (r: u8)
    ensures
        r == geometric_streets(street, configured),
{
    if configured > 0 {
        return configured;
    }
    match street {
        Street::Flop => 3,
        Street::Turn => 2,
        Street::River => 1,
    }
}

/// How many streets a geometric raise spreads over: one fewer for each raise before, at least one.
pub open spec fn raise_streets(street: Street, configured: u8, raises: u8) -> u8 {
    greater(geometric_streets(street, configured) - raises, 1) as u8
}

/// How many streets a geometric raise spreads over: one fewer for each raise before, at least one.
pub fn streets_for_raise_geometric(street: Street, configured: u8, raises_this_street: u8) -> (r: u8)
    ensures
        r == raise_streets(street, configured, raises_this_street),
{
    let base: u8 = streets_for_geometric(street, configured);
    if base > raises_this_street {
        base - raises_this_street
    } else {
        1
    }
}

/// A bet, or all in if it takes the whole stack.
pub open spec fn bet_of(amount: u32, stack: u32) -> ActionKind {
    if amount >= stack {
        ActionKind::AllIn { to: stack }
    } else {
        ActionKind::Bet { amount }
    }
}

/// A bet, or all in if it takes the whole stack.
pub fn bet_or_all_in(amount: u32, stack: u32) -> (r: ActionKind)
    ensures
        r == bet_of(amount, stack),
{
    if amount >= stack {
        ActionKind::AllIn { to: stack }
    } else {
        ActionKind::Bet { amount }
    }
}

/// A list with an action added at the end, unless it is in it.
pub open spec fn with_action(actions: Seq<ActionKind>, action: ActionKind) -> Seq<ActionKind> {
    if actions.contains(action) {
        actions
    } else {
        actions.push(action)
    }
}

/// Adds an action at the end, unless it is in the list.
pub fn push_unique_action(actions: &mut Vec<ActionKind>, action: ActionKind)
    ensures
        final(actions)@ == with_action(old(actions)@, action),
{
    let mut i: usize = 0;
    while i < actions.len()
        invariant
            i <= actions@.len(),
            actions@ == old(actions)@,
            forall|j: int| 0 <= j < i ==> actions@[j] != action,
        decreases actions@.len() - i,
    {
        if actions[i] == action {
            proof {
                assert(actions@.contains(action));
            }
            return;
        }
        i = i + 1;
    }
    actions.push(action);
}

/// The key by which the answers to a bet are ordered.
pub open spec fn response_key(action: ActionKind) -> (int, int) {
    match action {
        ActionKind::Fold => (0, 0),
        ActionKind::Call { amount } => (1, amount as int),
        ActionKind::Raise { to } => (2, to as int),
        ActionKind::AllIn { to } => (2, to as int),
        ActionKind::Check => (3, 0),
        ActionKind::Bet { amount } => (4, amount as int),
    }
}

/// The key by which actions are ordered while nothing is owed.
pub open spec fn opening_key(action: ActionKind) -> (int, int) {
    match action {
        ActionKind::Check => (0, 0),
        ActionKind::Bet { amount } => (1, amount as int),
        ActionKind::Raise { to } => (1, to as int),
        ActionKind::AllIn { to } => (1, to as int),
        ActionKind::Call { amount } => (2, amount as int),
        ActionKind::Fold => (3, 0),
    }
}

/// Whether an action comes before another, among answers to a bet or among openings.
pub open spec fn key_less(response: bool, a: ActionKind, b: ActionKind) -> bool {
    let (x, y) = if response {
        (response_key(a), response_key(b))
    } else {
        (opening_key(a), opening_key(b))
    };
    x.0 < y.0 || (x.0 == y.0 && x.1 < y.1)
}

fn key_of(response: bool, action: ActionKind) -> (r: (u8, u32))
    ensures
        response ==> (r.0 as int, r.1 as int) == response_key(action),
        !response ==> (r.0 as int, r.1 as int) == opening_key(action),
{
    if response {
        match action {
            ActionKind::Fold => (0, 0),
            ActionKind::Call { amount } => (1, amount),
            ActionKind::Raise { to } => (2, to),
            ActionKind::AllIn { to } => (2, to),
            ActionKind::Check => (3, 0),
            ActionKind::Bet { amount } => (4, amount),
        }
    } else {
        match action {
            ActionKind::Check => (0, 0),
            ActionKind::Bet { amount } => (1, amount),
            ActionKind::Raise { to } => (1, to),
            ActionKind::AllIn { to } => (1, to),
            ActionKind::Call { amount } => (2, amount),
            ActionKind::Fold => (3, 0),
        }
    }
}

fn is_key_less(response: bool, a: ActionKind, b: ActionKind) -> (r: bool)
    ensures
        r == key_less(response, a, b),
{
    let x: (u8, u32) = key_of(response, a);
    let y: (u8, u32) = key_of(response, b);
    x.0 < y.0 || (x.0 == y.0 && x.1 < y.1)
}

/// An action put into a sorted list, behind those that it does not come before.
pub open spec fn inserted(response: bool, list: Seq<ActionKind>, action: ActionKind) -> Seq<ActionKind>
    decreases list.len(),
{
    if list.len() == 0 {
        seq![action]
    } else if key_less(response, action, list.last()) {
        inserted(response, list.drop_last(), action).push(list.last())
    } else {
        list.push(action)
    }
}

/// The first `n` actions of a list, sorted; those of one key stay in their order.
pub open spec fn sorted_actions(response: bool, actions: Seq<ActionKind>, n: nat) -> Seq<ActionKind>
    decreases n,
{
    if n == 0 {
        Seq::empty()
    } else {
        inserted(response, sorted_actions(response, actions, (n - 1) as nat), actions[n - 1])
    }
}

/// The first `n` actions of a list, without those equal to the one before.
pub open spec fn without_runs(actions: Seq<ActionKind>, n: nat) -> Seq<ActionKind>
    decreases n,
{
    if n == 0 {
        Seq::empty()
    } else {
        let front = without_runs(actions, (n - 1) as nat);
        if n >= 2 && actions[n - 2] == actions[n - 1] {
            front
        } else {
            front.push(actions[n - 1])
        }
    }
}

/// A list sorted, and of actions that stand together and are equal only one.
pub open spec fn sorted_and_deduped(response: bool, actions: Seq<ActionKind>) -> Seq<ActionKind> {
    let sorted = sorted_actions(response, actions, actions.len());
    without_runs(sorted, sorted.len())
}

fn insert_sorted(response: bool, list: &mut Vec<ActionKind>, action: ActionKind)
    ensures
        final(list)@ == inserted(response, old(list)@, action),
{
    let ghost whole = old(list)@;
    let mut place: usize = list.len();
    proof {
        assert(whole.skip(whole.len() as int) =~= Seq::<ActionKind>::empty());
        assert(whole.take(whole.len() as int) =~= whole);
        assert(inserted(response, whole, action) + Seq::<ActionKind>::empty() =~= inserted(
            response,
            whole,
            action,
        ));
    }
    while place > 0 && is_key_less(response, action, list[place - 1])
        invariant
            list@ == whole,
            place <= whole.len(),
            inserted(response, whole, action) =~= inserted(response, whole.take(place as int), action)
                + whole.skip(place as int),
        decreases place,
    {
        proof {
            let front = whole.take(place as int);
            assert(front.drop_last() =~= whole.take(place - 1));
            assert(front.last() == whole[place - 1]);
            assert(seq![whole[place - 1]] + whole.skip(place as int) =~= whole.skip(place - 1));
            assert(inserted(response, front, action) =~= inserted(
                response,
                whole.take(place - 1),
                action,
            ).push(whole[place - 1]));
        }
        place = place - 1;
    }
    proof {
        let front = whole.take(place as int);
        if place > 0 {
            assert(front.last() == whole[place - 1]);
        }
        assert(inserted(response, front, action) =~= front.push(action));
        assert(whole.insert(place as int, action) =~= front.push(action) + whole.skip(place as int));
    }
    list.insert(place, action);
}

fn sort_and_dedup(response: bool, actions: &Vec<ActionKind>) -> (r: Vec<ActionKind>)
    ensures
        r@ == sorted_and_deduped(response, actions@),
{
    let mut sorted: Vec<ActionKind> = Vec::new();
    for i in 0..actions.len()
        invariant
            sorted@ == sorted_actions(response, actions@, i as nat),
    {
        insert_sorted(response, &mut sorted, actions[i]);
    }
    let mut kept: Vec<ActionKind> = Vec::new();
    for i in 0..sorted.len()
        invariant
            kept@ == without_runs(sorted@, i as nat),
    {
        if i == 0 || sorted[i - 1] != sorted[i] {
            kept.push(sorted[i]);
        }
    }
    kept
}

/// The answers to a bet in order, equal ones once.
pub fn sort_and_dedup_response_actions(actions: Vec<ActionKind>) -> (r: Vec<ActionKind>)
    ensures
        r@ == sorted_and_deduped(true, actions@),
{
    sort_and_dedup(true, &actions)
}

/// The openings in order, equal ones once.
pub fn sort_and_dedup_no_call_actions(actions: Vec<ActionKind>) -> (r: Vec<ActionKind>)
    ensures
        r@ == sorted_and_deduped(false, actions@),
{
    sort_and_dedup(false, &actions)
}

/// What a bet, raise or all-in comes to.
pub open spec fn size_of_action(action: ActionKind) -> Option<u32> {
    match action {
        ActionKind::Bet { amount } => Some(amount),
        ActionKind::Raise { to } => Some(to),
        ActionKind::AllIn { to } => Some(to),
        _ => None,
    }
}

/// Whether a size is clearly smaller than the one kept last.
pub open spec fn clearly_smaller<S: Scalar>(
    amount: u32,
    current: u32,
    pot: u32,
    offset: u32,
    threshold: S,
) -> bool {
    let share = |size: u32|
        S::from_u32_spec(floored(size - offset) as u32).over_spec(S::from_u32_spec(pot));
    share(current).minus_spec(threshold).over_spec(S::one_spec().plus_spec(threshold)).exceeds_spec(
        share(amount),
    )
}

/// The first `n` actions of a list, from the largest down without sizes close to the one kept last.
pub open spec fn merged_below<S: Scalar>(
    actions: Seq<ActionKind>,
    pot: u32,
    offset: u32,
    threshold: S,
    current: u32,
    n: nat,
) -> Seq<ActionKind>
    decreases n,
{
    if n == 0 {
        Seq::empty()
    } else {
        let rest = (n - 1) as nat;
        match size_of_action(actions[n - 1]) {
            Some(amount) => if clearly_smaller(amount, current, pot, offset, threshold) {
                merged_below(actions, pot, offset, threshold, amount, rest).push(actions[n - 1])
            } else {
                merged_below(actions, pot, offset, threshold, current, rest)
            },
            None => merged_below(actions, pot, offset, threshold, current, rest).push(actions[n - 1]),
        }
    }
}

/// A list of actions without sizes close to a larger one that is kept.
pub open spec fn merged<S: Scalar>(
    actions: Seq<ActionKind>,
    pot: u32,
    offset: u32,
    threshold: S,
) -> Seq<ActionKind> {
    if S::zero_spec().at_least_spec(threshold) || pot == 0 {
        actions
    } else {
        merged_below(actions, pot, offset, threshold, u32::MAX, actions.len())
    }
}

/// Drops sizes close to a larger one that is kept.
pub fn merge_bet_actions<S: Scalar>(
    actions: Vec<ActionKind>,
    pot: u32,
    offset: u32,
    threshold: S,
) -> (r: Vec<ActionKind>)
    ensures
        r@ == merged(actions@, pot, offset, threshold),
{
    if S::zero().at_least(threshold) || pot == 0 {
        return actions;
    }
    let mut current: u32 = u32::MAX;
    let mut kept: Vec<ActionKind> = Vec::new();
    let mut left: usize = actions.len();
    proof {
        assert(kept@.reverse() =~= Seq::empty());
        let all = merged_below(actions@, pot, offset, threshold, u32::MAX, actions@.len());
        assert(all + Seq::empty() =~= all);
    }
    while left > 0
        invariant
            left <= actions@.len(),
            merged_below(actions@, pot, offset, threshold, u32::MAX, actions@.len())
                == merged_below(actions@, pot, offset, threshold, current, left as nat)
                + kept@.reverse(),
        decreases left,
    {
        let ghost before = kept@;
        let ghost rest = (left - 1) as nat;
        let action: ActionKind = actions[left - 1];
        let size: Option<u32> = match action {
            ActionKind::Bet { amount } => Some(amount),
            ActionKind::Raise { to } => Some(to),
            ActionKind::AllIn { to } => Some(to),
            _ => None,
        };
        let mut keep: bool = true;
        let ghost held = current;
        if let Some(amount) = size {
            let share: S = S::from_u32(amount.saturating_sub(offset)).over(S::from_u32(pot));
            let current_share: S = S::from_u32(current.saturating_sub(offset)).over(
                S::from_u32(pot),
            );
            let bound: S = current_share.minus(threshold).over(S::one().plus(threshold));
            keep = bound.exceeds(share);
            if keep {
                current = amount;
            }
        }
        if keep {
            kept.push(action);
            proof {
                assert(kept@.reverse() =~= seq![action] + before.reverse());
                assert(merged_below(actions@, pot, offset, threshold, current, rest).push(action)
                    + before.reverse() =~= merged_below(
                    actions@,
                    pot,
                    offset,
                    threshold,
                    current,
                    rest,
                ) + kept@.reverse());
            }
        }
        left = left - 1;
    }
    let mut result: Vec<ActionKind> = Vec::new();
    let mut left: usize = kept.len();
    while left > 0
        invariant
            left <= kept@.len(),
            result@ =~= kept@.reverse().take(kept@.len() - left),
        decreases left,
    {
        result.push(kept[left - 1]);
        left = left - 1;
    }
    proof {
        assert(result@ =~= kept@.reverse());
        assert(Seq::<ActionKind>::empty() + kept@.reverse() =~= kept@.reverse());
    }
    result
}

} // verus!
