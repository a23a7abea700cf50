//! The actions offered at a decision after the flop: sizes from fractions of the pot, from bets that were
//! seen, and all in; near ones merged, the rest capped in number.
use vstd::prelude::*;
use crate::arith::capped;
use crate::scalar::{ratio, ratio_spec, Scalar};
use crate::sorting::{is_sorting, sorted_positions, sorting, SortKey};
use crate::tree::Street;

verus! {

/// What a player can do.
#[derive(Clone, Copy, Debug, PartialEq, Eq, Structural)]
pub enum PlayerAction {
    Fold,
    Check,
    Call { amount: u32 },
    Bet { amount: u32 },
    Raise { amount: u32 },
    AllIn { amount: u32 },
}

/// Where a size comes from.
#[derive(Clone, Copy, Debug, PartialEq, Eq, Structural)]
pub enum SizingSource {
    Standard,
    Observed,
    Forced,
}

/// An action that is offered.
#[derive(Clone, Copy, Debug, PartialEq, Eq, Structural)]
pub struct ActionCandidate {
    pub action: PlayerAction,
    pub source: SizingSource,
}

/// Which sizes are offered, how near ones are merged, and how many are kept.
#[derive(Clone, Debug)]
pub struct ActionSetConfig<S> {
    pub max_aggressive_actions: usize,
    pub merge_log_ratio: S,
    pub all_in_threshold: S,
    pub flop_bet_fractions: Vec<S>,
    pub turn_bet_fractions: Vec<S>,
    pub river_bet_fractions: Vec<S>,
    pub raise_fractions: Vec<S>,
}

impl<S: Scalar> Default for ActionSetConfig<S> {
    fn default() -> (r: Self)
        ensures
            r.max_aggressive_actions == 4,
            r.merge_log_ratio == ratio_spec::<S>(1, 5),
            r.all_in_threshold == ratio_spec::<S>(9, 10),
            r.flop_bet_fractions@ == seq![ratio_spec::<S>(33, 100), ratio_spec::<S>(3, 4)],
            r.turn_bet_fractions@ == seq![ratio_spec::<S>(1, 2), ratio_spec::<S>(1, 1)],
            r.river_bet_fractions@ == seq![
                ratio_spec::<S>(33, 100),
                ratio_spec::<S>(3, 4),
                ratio_spec::<S>(5, 4),
            ],
            r.raise_fractions@ == seq![ratio_spec::<S>(1, 2), ratio_spec::<S>(1, 1)],
    {
        ActionSetConfig {
            max_aggressive_actions: 4,
            merge_log_ratio: ratio(1, 5),
            all_in_threshold: ratio(9, 10),
            flop_bet_fractions: vec![ratio(33, 100), ratio(3, 4)],
            turn_bet_fractions: vec![ratio(1, 2), ratio(1, 1)],
            river_bet_fractions: vec![ratio(33, 100), ratio(3, 4), ratio(5, 4)],
            raise_fractions: vec![ratio(1, 2), ratio(1, 1)],
        }
    }
}

/// What the actions are asked for.
#[derive(Clone, Debug)]
pub struct ActionSetRequest {
    pub street: Street,
    pub pot: u32,
    pub stack: u32,
    pub to_call: u32,
    pub min_aggressive_amount: u32,
    pub observed_aggressive_amounts: Vec<u32>,
}

/// What the actions are asked for.
pub ghost struct RequestView {
    pub street: Street,
    pub pot: u32,
    pub stack: u32,
    pub to_call: u32,
    pub min_aggressive_amount: u32,
    pub observed: Seq<u32>,
}

impl View for ActionSetRequest {
    type V = RequestView;

    open spec fn view(&self) -> RequestView {
        RequestView {
            street: self.street,
            pot: self.pot,
            stack: self.stack,
            to_call: self.to_call,
            min_aggressive_amount: self.min_aggressive_amount,
            observed: self.observed_aggressive_amounts@,
        }
    }
}

impl RequestView {
    /// Whether nothing is to be called.
    pub open spec fn checks(self) -> bool {
        self.to_call == 0
    }

    /// Whether the stack and the least bet are more than what is to be called.
    pub open spec fn raises(self) -> bool {
        self.stack > self.to_call && self.min_aggressive_amount > self.to_call
    }
}

impl ActionSetRequest {
    /// Whether nothing is to be called.
    pub fn can_check(&self) -> (r: bool)
        ensures
            r == self@.checks(),
    {
        self.to_call == 0
    }

    /// Whether the stack and the least bet are more than what is to be called.
    pub fn can_raise_or_bet(&self) -> (r: bool)
        ensures
            r == self@.raises(),
    {
        self.stack > self.to_call && self.min_aggressive_amount > self.to_call
    }
}

/// A size of a bet or a raise.
#[derive(Clone, Copy, Debug, PartialEq, Eq, Structural)]
pub struct AggressiveSizing {
    pub amount: u32,
    pub source: SizingSource,
}

/// From how much on a bet is all in.
pub open spec fn absorbs_from<S: Scalar>(request: RequestView, threshold: S) -> u32 {
    S::from_u32_spec(request.stack).times_spec(threshold).ceil_u32_spec()
}

/// The amount that is bet for an amount that is wished, if any: all in from a share of the stack on, or
/// where the least bet is more than the stack; else at least the least bet.
pub open spec fn legal_amount<S: Scalar>(request: RequestView, amount: u32, threshold: S) -> Option<u32> {
    if request.min_aggressive_amount > request.stack {
        if request.stack > request.to_call {
            Some(request.stack)
        } else {
            None
        }
    } else if amount >= absorbs_from(request, threshold) {
        Some(request.stack)
    } else {
        let within = if amount < request.min_aggressive_amount {
            request.min_aggressive_amount
        } else if amount > request.stack {
            request.stack
        } else {
            amount
        };
        if within <= request.to_call {
            None
        } else {
            Some(within)
        }
    }
}

/// The amount that is bet for an amount that is wished, if any.
pub fn legal_aggressive_amount<S: Scalar>(request: &ActionSetRequest, amount: u32, all_in_threshold: S) -> (r:
    Option<u32>)
    ensures
        r == legal_amount(request@, amount, all_in_threshold),
{
    if request.min_aggressive_amount > request.stack {
        if request.stack > request.to_call {
            return Some(request.stack);
        }
        return None;
    }
    if amount >= all_in_absorb_threshold(request, all_in_threshold) {
        return Some(request.stack);
    }
    let within: u32 = if amount < request.min_aggressive_amount {
        request.min_aggressive_amount
    } else if amount > request.stack {
        request.stack
    } else {
        amount
    };
    if within <= request.to_call {
        None
    } else {
        Some(within)
    }
}

/// From how much on a bet is all in.
pub fn all_in_absorb_threshold<S: Scalar>(request: &ActionSetRequest, all_in_threshold: S) -> (r: u32)
    ensures
        r == absorbs_from(request@, all_in_threshold),
{
    S::from_u32(request.stack).times(all_in_threshold).ceil_u32()
}

/// How far two amounts are apart.
pub open spec fn amounts_apart<S: Scalar>(left: u32, right: u32) -> S {
    S::log_ratio_spec(
        if left == 0 {
            1
        } else {
            left
        },
        if right == 0 {
            1
        } else {
            right
        },
    )
}

/// How far two amounts are apart.
pub fn log_ratio_distance<S: Scalar>(left: u32, right: u32) -> (r: S)
    ensures
        r == amounts_apart::<S>(left, right),
{
    let above: u32 = if left == 0 {
        1
    } else {
        left
    };
    let below: u32 = if right == 0 {
        1
    } else {
        right
    };
    S::log_ratio(above, below)
}

/// The nearest of the first `n` sizes that are near an amount, the first of equally near ones.
pub open spec fn nearest<S: Scalar>(sizings: Seq<AggressiveSizing>, amount: u32, merge: S, n: nat) -> Option<
    usize,
>
    decreases n,
{
    if n == 0 {
        None
    } else {
        let found = nearest(sizings, amount, merge, (n - 1) as nat);
        let distance = amounts_apart::<S>(sizings[n - 1].amount, amount);
        if !merge.at_least_spec(distance) {
            found
        } else {
            match found {
                None => Some((n - 1) as usize),
                Some(k) => if amounts_apart::<S>(sizings[k as int].amount, amount).exceeds_spec(
                    distance,
                ) {
                    Some((n - 1) as usize)
                } else {
                    Some(k)
                },
            }
        }
    }
}

/// The place of the nearest size that is near an amount.
pub fn nearest_index<S: Scalar>(sizings: &Vec<AggressiveSizing>, amount: u32, merge_log_ratio: S) -> (r: Option<
    usize,
>)
    ensures
        r == nearest(sizings@, amount, merge_log_ratio, sizings@.len()),
        r matches Some(k) ==> k < sizings@.len(),
{
    let mut found: Option<usize> = None;
    for n in 0..sizings.len()
        invariant
            found == nearest(sizings@, amount, merge_log_ratio, n as nat),
            found matches Some(k) ==> k < n,
    {
        let distance: S = log_ratio_distance(sizings[n].amount, amount);
        if merge_log_ratio.at_least(distance) {
            let closer: bool = match found {
                None => true,
                Some(k) => log_ratio_distance::<S>(sizings[k].amount, amount).exceeds(distance),
            };
            if closer {
                found = Some(n);
            }
        }
    }
    found
}

/// How much a source counts.
pub open spec fn priority(source: SizingSource) -> u8 {
    match source {
        SizingSource::Standard => 0,
        SizingSource::Observed => 1,
        SizingSource::Forced => 2,
    }
}

/// How much a source counts.
pub fn source_priority(source: SizingSource) -> (r: u8)
    ensures
        r == priority(source),
{
    match source {
        SizingSource::Standard => 0,
        SizingSource::Observed => 1,
        SizingSource::Forced => 2,
    }
}

/// Whether a size takes the place of another: if its source counts no less.
pub fn should_replace(current: AggressiveSizing, incoming: AggressiveSizing) -> (r: bool)
    ensures
        r == (priority(incoming.source) >= priority(current.source)),
{
    source_priority(incoming.source) >= source_priority(current.source)
}

/// Sizes with one more: in the place of the nearest if one is near, unless that counts more; else at the
/// end.
pub open spec fn merged<S: Scalar>(sizings: Seq<AggressiveSizing>, incoming: AggressiveSizing, merge: S) -> Seq<
    AggressiveSizing,
> {
    match nearest(sizings, incoming.amount, merge, sizings.len()) {
        Some(k) => if priority(incoming.source) >= priority(sizings[k as int].source) {
            sizings.update(k as int, incoming)
        } else {
            sizings
        },
        None => sizings.push(incoming),
    }
}

/// Adds a size, in the place of a near one.
pub fn insert_or_replace_near<S: Scalar>(
    sizings: &mut Vec<AggressiveSizing>,
    incoming: AggressiveSizing,
    merge_log_ratio: S,
)
    ensures
        final(sizings)@ == merged(old(sizings)@, incoming, merge_log_ratio),
        forall|i: int|
            0 <= i < final(sizings)@.len() ==> #[trigger] final(sizings)@[i] == incoming || (i < old(
                sizings,
            )@.len() && final(sizings)@[i] == old(sizings)@[i]),
{
    match nearest_index(sizings, incoming.amount, merge_log_ratio) {
        Some(index) => {
            if should_replace(sizings[index], incoming) {
                sizings.set(index, incoming);
            }
        },
        None => {
            sizings.push(incoming);
        },
    }
}

/// The fractions that sizes are made of.
pub open spec fn fractions_of<S>(config: ActionSetConfig<S>, request: RequestView) -> Seq<S> {
    if request.checks() {
        match request.street {
            Street::Flop => config.flop_bet_fractions@,
            Street::Turn => config.turn_bet_fractions@,
            Street::River => config.river_bet_fractions@,
        }
    } else {
        config.raise_fractions@
    }
}

/// The amount that a fraction stands for: of the pot, or of the pot after a call and on top of it.
pub open spec fn fraction_amount<S: Scalar>(request: RequestView, fraction: S) -> u32 {
    let base = if request.checks() {
        request.pot as int
    } else {
        capped(request.pot + request.to_call)
    };
    let raw = S::from_u32_spec(base as u32).times_spec(fraction).round_u32_spec();
    if request.checks() {
        raw
    } else {
        capped(request.to_call + raw) as u32
    }
}

/// The sizes that the first `n` fractions give.
pub open spec fn standard_spec<S: Scalar>(config: ActionSetConfig<S>, request: RequestView, n: nat) -> Seq<
    AggressiveSizing,
>
    decreases n,
{
    if n == 0 {
        Seq::empty()
    } else {
        let front = standard_spec(config, request, (n - 1) as nat);
        let wish = fraction_amount(request, fractions_of(config, request)[n - 1]);
        match legal_amount(request, wish, config.all_in_threshold) {
            Some(amount) => merged(
                front,
                AggressiveSizing { amount, source: SizingSource::Standard },
                config.merge_log_ratio,
            ),
            None => front,
        }
    }
}

/// Sizes with those of the first `n` bets that were seen.
pub open spec fn observed_spec<S: Scalar>(
    config: ActionSetConfig<S>,
    request: RequestView,
    sizings: Seq<AggressiveSizing>,
    n: nat,
) -> Seq<AggressiveSizing>
    decreases n,
{
    if n == 0 {
        sizings
    } else {
        let front = observed_spec(config, request, sizings, (n - 1) as nat);
        match legal_amount(
            request,
            request.observed[n - 1],
            config.all_in_threshold,
        ) {
            Some(amount) => merged(
                front,
                AggressiveSizing { amount, source: SizingSource::Observed },
                config.merge_log_ratio,
            ),
            None => front,
        }
    }
}

/// Sort keys by amount.
pub open spec fn amount_keys(sizings: Seq<AggressiveSizing>) -> Seq<SortKey> {
    Seq::new(
        sizings.len(),
        |i: int| SortKey { first: sizings[i].amount as u64, second: 0, third: 0, fourth: 0 },
    )
}

/// Sizes in an order.
pub open spec fn reordered(sizings: Seq<AggressiveSizing>, order: Seq<usize>) -> Seq<AggressiveSizing> {
    Seq::new(order.len(), |i: int| sizings[order[i] as int])
}

/// Sizes from the smallest to the largest.
pub open spec fn by_amount(sizings: Seq<AggressiveSizing>) -> Seq<AggressiveSizing> {
    reordered(sizings, sorting(amount_keys(sizings)))
}

/// The first `n` sizes, of equal neighbours the first only.
pub open spec fn deduped(sizings: Seq<AggressiveSizing>, n: nat) -> Seq<AggressiveSizing>
    decreases n,
{
    if n == 0 {
        Seq::empty()
    } else {
        let front = deduped(sizings, (n - 1) as nat);
        if front.len() > 0 && front.last().amount == sizings[n - 1].amount {
            front
        } else {
            front.push(sizings[n - 1])
        }
    }
}

/// How many of the sizes to keep matter first: forced ones, then those seen, then the others; among
/// them those nearest to a pot-sized bet.
pub open spec fn keep_key(request: RequestView, sizing: AggressiveSizing) -> SortKey {
    let middle = if request.checks() {
        request.pot as int
    } else {
        capped(request.to_call + request.pot)
    };
    SortKey {
        first: match sizing.source {
            SizingSource::Forced => 0,
            SizingSource::Observed => 1,
            SizingSource::Standard => 2,
        },
        second: (if sizing.amount >= middle {
            sizing.amount - middle
        } else {
            middle - sizing.amount
        }) as u64,
        third: 0,
        fourth: 0,
    }
}

/// The keys by which sizes are kept.
pub open spec fn keep_keys(request: RequestView, sizings: Seq<AggressiveSizing>) -> Seq<SortKey> {
    Seq::new(sizings.len(), |i: int| keep_key(request, sizings[i]))
}

/// At most so many of the sizes, from the smallest to the largest.
pub open spec fn pruned<S>(config: ActionSetConfig<S>, request: RequestView, sizings: Seq<AggressiveSizing>) -> Seq<
    AggressiveSizing,
> {
    let most = if config.max_aggressive_actions == 0 {
        1
    } else {
        config.max_aggressive_actions as int
    };
    if sizings.len() <= most {
        sizings
    } else {
        by_amount(reordered(sizings, sorting(keep_keys(request, sizings))).take(most))
    }
}

/// The action of an amount.
pub open spec fn action_of(request: RequestView, amount: u32) -> PlayerAction {
    if amount == request.stack {
        PlayerAction::AllIn { amount }
    } else if request.checks() {
        PlayerAction::Bet { amount }
    } else {
        PlayerAction::Raise { amount }
    }
}

/// The action of an amount.
pub fn aggressive_action(request: &ActionSetRequest, amount: u32) -> (r: PlayerAction)
    ensures
        r == action_of(request@, amount),
{
    if amount == request.stack {
        PlayerAction::AllIn { amount }
    } else if request.can_check() {
        PlayerAction::Bet { amount }
    } else {
        PlayerAction::Raise { amount }
    }
}

/// All sizes before they are pruned: by fractions, as seen, and all in if there is something to call.
pub open spec fn sizings_spec<S: Scalar>(config: ActionSetConfig<S>, request: RequestView) -> Seq<
    AggressiveSizing,
> {
    let standard = standard_spec(config, request, fractions_of(config, request).len());
    let seen = observed_spec(
        config,
        request,
        standard,
        request.observed.len(),
    );
    if request.checks() {
        seen
    } else {
        merged(
            seen,
            AggressiveSizing { amount: request.stack, source: SizingSource::Forced },
            config.merge_log_ratio,
        )
    }
}

/// The bets or raises that are offered.
pub open spec fn aggressive_spec<S: Scalar>(config: ActionSetConfig<S>, request: RequestView) -> Seq<
    ActionCandidate,
> {
    let sorted = by_amount(sizings_spec(config, request));
    let kept = pruned(config, request, deduped(sorted, sorted.len()));
    Seq::new(
        kept.len(),
        |i: int|
            ActionCandidate { action: action_of(request, kept[i].amount), source: kept[i].source },
    )
}

/// The actions that do not bet: check, or fold and call.
pub open spec fn passive_spec(request: RequestView) -> Seq<ActionCandidate> {
    if request.checks() {
        seq![ActionCandidate { action: PlayerAction::Check, source: SizingSource::Forced }]
    } else {
        seq![
            ActionCandidate { action: PlayerAction::Fold, source: SizingSource::Forced },
            ActionCandidate {
                action: PlayerAction::Call { amount: request.to_call },
                source: SizingSource::Forced,
            },
        ]
    }
}

/// The actions that are offered.
pub open spec fn actions_spec<S: Scalar>(config: ActionSetConfig<S>, request: RequestView) -> Seq<
    ActionCandidate,
> {
    if request.raises() {
        passive_spec(request) + aggressive_spec(config, request)
    } else {
        passive_spec(request)
    }
}

/// Whether an action can be taken: check where nothing is to be called; else fold, or call it; bets and
/// raises of more than that, up to the stack.
pub open spec fn suits_request(request: RequestView, action: PlayerAction) -> bool {
    match action {
        PlayerAction::Check => request.to_call == 0,
        PlayerAction::Fold => request.to_call > 0,
        PlayerAction::Call { amount } => request.to_call > 0 && amount == request.to_call,
        PlayerAction::Bet { amount } => request.to_call < amount <= request.stack,
        PlayerAction::Raise { amount } => request.to_call < amount <= request.stack,
        PlayerAction::AllIn { amount } => request.to_call < amount <= request.stack,
    }
}

/// Whether sizes are more than what is to be called, up to the stack.
pub open spec fn all_within(request: RequestView, sizings: Seq<AggressiveSizing>) -> bool {
    forall|i: int|
        0 <= i < sizings.len() ==> request.to_call < (#[trigger] sizings[i]).amount <= request.stack
}

fn sort_by_amount(sizings: &Vec<AggressiveSizing>) -> (r: Vec<AggressiveSizing>)
    ensures
        r@ == by_amount(sizings@),
        forall|i: int| 0 <= i < r@.len() ==> sizings@.contains(#[trigger] r@[i]),
{
    let mut keys: Vec<SortKey> = Vec::new();
    for i in 0..sizings.len()
        invariant
            keys@ =~= amount_keys(sizings@).take(i as int),
    {
        keys.push(SortKey::one(sizings[i].amount as u64));
    }
    proof {
        assert(keys@ =~= amount_keys(sizings@));
    }
    reorder(sizings, &keys)
}

fn reorder(sizings: &Vec<AggressiveSizing>, keys: &Vec<SortKey>) -> (r: Vec<AggressiveSizing>)
    requires
        keys@.len() == sizings@.len(),
    ensures
        r@ == reordered(sizings@, sorting(keys@)),
        r@.len() == sizings@.len(),
        forall|i: int| 0 <= i < r@.len() ==> sizings@.contains(#[trigger] r@[i]),
{
    let order: Vec<usize> = sorted_positions(keys);
    let mut out: Vec<AggressiveSizing> = Vec::new();
    for i in 0..order.len()
        invariant
            is_sorting(keys@, 0, sizings@.len() as int, order@),
            out@ =~= reordered(sizings@, order@).take(i as int),
    {
        out.push(sizings[order[i]]);
    }
    proof {
        assert(out@ =~= reordered(sizings@, order@));
    }
    out
}

fn dedup(sizings: &Vec<AggressiveSizing>) -> (r: Vec<AggressiveSizing>)
    ensures
        r@ == deduped(sizings@, sizings@.len()),
        forall|i: int| 0 <= i < r@.len() ==> sizings@.contains(#[trigger] r@[i]),
{
    let mut out: Vec<AggressiveSizing> = Vec::new();
    for i in 0..sizings.len()
        invariant
            out@ == deduped(sizings@, i as nat),
            forall|k: int| 0 <= k < out@.len() ==> sizings@.contains(#[trigger] out@[k]),
    {
        let repeats: bool = out.len() > 0 && out[out.len() - 1].amount == sizings[i].amount;
        if !repeats {
            out.push(sizings[i]);
        }
    }
    out
}

/// By what sizes are kept.
fn sizing_rank(request: &ActionSetRequest, sizing: AggressiveSizing) -> (r: SortKey)
    ensures
        r == keep_key(request@, sizing),
{
    let source_rank: u64 = match sizing.source {
        SizingSource::Forced => 0,
        SizingSource::Observed => 1,
        SizingSource::Standard => 2,
    };
    let middle: u32 = if request.can_check() {
        request.pot
    } else {
        request.to_call.saturating_add(request.pot)
    };
    let distance: u32 = if sizing.amount >= middle {
        sizing.amount - middle
    } else {
        middle - sizing.amount
    };
    SortKey { first: source_rank, second: distance as u64, third: 0, fourth: 0 }
}

/// What builds the actions.
#[derive(Clone, Debug)]
pub struct ActionSetBuilder<S> {
    pub config: ActionSetConfig<S>,
}

impl<S: Scalar> ActionSetConfig<S> {
    /// The actions that are offered.
    pub fn candidates(&self, request: &ActionSetRequest) -> (r: Vec<ActionCandidate>)
        requires
            request.pot > 0,
            request.stack > 0,
            request.to_call <= request.stack,
        ensures
            r@ == actions_spec(*self, request@),
            forall|k: int|
                0 <= k < r@.len() ==> suits_request(request@, (#[trigger] r@[k]).action),
    {
        let mut actions: Vec<ActionCandidate> = Vec::new();
        if request.can_check() {
            actions.push(
                ActionCandidate { action: PlayerAction::Check, source: SizingSource::Forced },
            );
        } else {
            actions.push(
                ActionCandidate { action: PlayerAction::Fold, source: SizingSource::Forced },
            );
            actions.push(
                ActionCandidate {
                    action: PlayerAction::Call { amount: request.to_call },
                    source: SizingSource::Forced,
                },
            );
        }
        proof {
            assert(actions@ =~= passive_spec(request@));
        }
        if request.can_raise_or_bet() {
            let mut more: Vec<ActionCandidate> = self.aggressive_actions(request);
            let ghost front = actions@;
            let ghost back = more@;
            actions.append(&mut more);
            proof {
                assert forall|k: int| 0 <= k < actions@.len() implies suits_request(
                    request@,
                    (#[trigger] actions@[k]).action,
                ) by {
                    if k >= front.len() {
                        assert(actions@[k] == back[k - front.len()]);
                    }
                }
            }
        }
        actions
    }

    fn aggressive_actions(&self, request: &ActionSetRequest) -> (r: Vec<ActionCandidate>)
        requires
            request@.raises(),
        ensures
            r@ == aggressive_spec(*self, request@),
            forall|k: int|
                0 <= k < r@.len() ==> suits_request(request@, (#[trigger] r@[k]).action),
    {
        let mut sizings: Vec<AggressiveSizing> = self.standard_sizings(request);
        let ghost standard = sizings@;
        for k in 0..request.observed_aggressive_amounts.len()
            invariant
                request@.raises(),
                all_within(request@, sizings@),
                sizings@ == observed_spec(*self, request@, standard, k as nat),
        {
            let wish: u32 = request.observed_aggressive_amounts[k];
            if let Some(amount) = legal_aggressive_amount(
                request,
                wish,
                self.all_in_threshold,
            ) {
                insert_or_replace_near(
                    &mut sizings,
                    AggressiveSizing { amount, source: SizingSource::Observed },
                    self.merge_log_ratio,
                );
            }
        }
        if !request.can_check() {
            insert_or_replace_near(
                &mut sizings,
                AggressiveSizing { amount: request.stack, source: SizingSource::Forced },
                self.merge_log_ratio,
            );
        }
        let sorted: Vec<AggressiveSizing> = sort_by_amount(&sizings);
        proof {
            lemma_still_within(request@, sizings@, sorted@);
        }
        let distinct: Vec<AggressiveSizing> = dedup(&sorted);
        proof {
            lemma_still_within(request@, sorted@, distinct@);
        }
        let kept: Vec<AggressiveSizing> = self.prune_sizings(request, distinct);
        let mut actions: Vec<ActionCandidate> = Vec::new();
        for i in 0..kept.len()
            invariant
                actions@.len() == i,
                all_within(request@, kept@),
                forall|j: int|
                    0 <= j < i ==> suits_request(request@, (#[trigger] actions@[j]).action),
                forall|j: int|
                    0 <= j < i ==> #[trigger] actions@[j] == (ActionCandidate {
                        action: action_of(request@, kept@[j].amount),
                        source: kept@[j].source,
                    }),
        {
            actions.push(
                ActionCandidate {
                    action: aggressive_action(request, kept[i].amount),
                    source: kept[i].source,
                },
            );
        }
        proof {
            assert(actions@ =~= aggressive_spec(*self, request@));
        }
        actions
    }

    fn standard_sizings(&self, request: &ActionSetRequest) -> (r: Vec<AggressiveSizing>)
        requires
            request@.raises(),
        ensures
            all_within(request@, r@),
            r@ == standard_spec(
                *self,
                request@,
                fractions_of(*self, request@).len(),
            ),
    {
        let fractions: &Vec<S> = if request.can_check() {
            match request.street {
                Street::Flop => &self.flop_bet_fractions,
                Street::Turn => &self.turn_bet_fractions,
                Street::River => &self.river_bet_fractions,
            }
        } else {
            &self.raise_fractions
        };
        let base: u32 = if request.can_check() {
            request.pot
        } else {
            request.pot.saturating_add(request.to_call)
        };
        let mut sizings: Vec<AggressiveSizing> = Vec::new();
        for k in 0..fractions.len()
            invariant
                request@.raises(),
                all_within(request@, sizings@),
                fractions@ == fractions_of(*self, request@),
                base == (if request@.checks() {
                    request.pot as int
                } else {
                    capped(request.pot + request.to_call)
                }),
                sizings@ == standard_spec(*self, request@, k as nat),
        {
            let raw: u32 = S::from_u32(base).times(fractions[k]).round_u32();
            let wish: u32 = if request.can_check() {
                raw
            } else {
                request.to_call.saturating_add(raw)
            };
            if let Some(amount) = legal_aggressive_amount(
                request,
                wish,
                self.all_in_threshold,
            ) {
                insert_or_replace_near(
                    &mut sizings,
                    AggressiveSizing { amount, source: SizingSource::Standard },
                    self.merge_log_ratio,
                );
            }
        }
        sizings
    }

    fn prune_sizings(&self, request: &ActionSetRequest, sizings: Vec<AggressiveSizing>) -> (r: Vec<
        AggressiveSizing,
    >)
        requires
            all_within(request@, sizings@),
        ensures
            r@ == pruned(*self, request@, sizings@),
            all_within(request@, r@),
    {
        let most: usize = if self.max_aggressive_actions == 0 {
            1
        } else {
            self.max_aggressive_actions
        };
        if sizings.len() <= most {
            return sizings;
        }
        let mut keys: Vec<SortKey> = Vec::new();
        for i in 0..sizings.len()
            invariant
                keys@ =~= keep_keys(request@, sizings@).take(i as int),
        {
            keys.push(sizing_rank(request, sizings[i]));
        }
        proof {
            assert(keys@ =~= keep_keys(request@, sizings@));
        }
        let mut kept: Vec<AggressiveSizing> = reorder(&sizings, &keys);
        proof {
            lemma_still_within(request@, sizings@, kept@);
        }
        kept.truncate(most);
        proof {
            assert(kept@ =~= reordered(sizings@, sorting(keys@)).take(most as int));
        }
        let sorted: Vec<AggressiveSizing> = sort_by_amount(&kept);
        proof {
            lemma_still_within(request@, kept@, sorted@);
        }
        sorted
    }
}

impl<S: Scalar> ActionSetBuilder<S> {
    /// A builder of actions.
    pub fn new(config: ActionSetConfig<S>) -> (r: Self)
        ensures
            r.config == config,
    {
        ActionSetBuilder { config }
    }

    /// The actions that are offered.
    pub fn build(&self, request: &ActionSetRequest) -> (r: Vec<ActionCandidate>)
        requires
            request.pot > 0,
            request.stack > 0,
            request.to_call <= request.stack,
        ensures
            r@ == actions_spec(self.config, request@),
            forall|k: int|
                0 <= k < r@.len() ==> suits_request(request@, (#[trigger] r@[k]).action),
    {
        self.config.candidates(request)
    }
}

proof fn lemma_still_within(
    request: RequestView,
    sizings: Seq<AggressiveSizing>,
    others: Seq<AggressiveSizing>,
)
    requires
        all_within(request, sizings),
        forall|i: int| 0 <= i < others.len() ==> sizings.contains(#[trigger] others[i]),
    ensures
        all_within(request, others),
{
    assert forall|i: int| 0 <= i < others.len() implies request.to_call < (
    #[trigger] others[i]).amount <= request.stack by {
        assert(sizings.contains(others[i]));
        let k = choose|k: int| 0 <= k < sizings.len() && sizings[k] == others[i];
        assert(request.to_call < sizings[k].amount <= request.stack);
    }
}

/// Whether an action puts chips in on its own.
pub open spec fn is_aggressive(action: PlayerAction) -> bool {
    action is Bet || action is Raise || action is AllIn
}

/// Whether an action puts chips in on its own.
pub fn is_aggressive_action(action: PlayerAction) -> (r: bool)
    ensures
        r == is_aggressive(action),
{
    match action {
        PlayerAction::Bet { .. } => true,
        PlayerAction::Raise { .. } => true,
        PlayerAction::AllIn { .. } => true,
        _ => false,
    }
}

} // verus!
