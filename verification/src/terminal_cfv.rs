//! Counterfactual values at the end of a hand.
//!
//! At a showdown a combo wins what the opponent reaches with weaker combos and loses what the opponent
//! reaches with stronger ones, not counting combos that share a card with it. The direct computation
//! compares every pair of combos; the fast one takes prefix sums over the combos in order of strength
//! and corrects them for the few combos that share a card.
use vstd::prelude::*;
use crate::cards::{deck_without, Board, Card};
use crate::evaluator::{compare_strength, comparison};
use crate::scalar::Scalar;
use crate::terminal_board::{blockers_facts, PreparedTerminalBoard, PrivateCombo};
use crate::text::{around, around_spec};

verus! {

/// What both players reach a finished board with.
#[derive(Debug)]
pub struct TerminalCfvInput<S> {
    pub board: Board,
    pub hero_reach: Vec<S>,
    pub villain_reach: Vec<S>,
}

/// What both players' combos are worth.
#[derive(Debug)]
pub struct TerminalCfvOutput<S> {
    pub hero_values: Vec<S>,
    pub villain_values: Vec<S>,
}

/// Space for the values of one board, used again for each.
#[derive(Debug)]
pub struct TerminalCfvScratch<S> {
    prefix: Vec<S>,
    hero_values: Vec<S>,
    villain_values: Vec<S>,
}

/// The sum of the reaches of the first `k` combos of an order.
pub open spec fn prefix_sum<S: Scalar>(order: Seq<usize>, reach: Seq<S>, k: nat) -> S
    decreases k,
{
    if k == 0 {
        S::zero_spec()
    } else {
        prefix_sum(order, reach, (k - 1) as nat).plus_spec(reach[order[k - 1] as int])
    }
}

/// A value less the reaches of the first `n` entries of a list, one after the other.
pub open spec fn less_all<S: Scalar>(value: S, list: Seq<u16>, reach: Seq<S>, n: nat) -> S
    decreases n,
{
    if n == 0 {
        value
    } else {
        less_all(value, list, reach, (n - 1) as nat).minus_spec(reach[list[n - 1] as int])
    }
}

/// A value plus the reaches of the first `n` entries of a list, one after the other.
pub open spec fn plus_all<S: Scalar>(value: S, list: Seq<u16>, reach: Seq<S>, n: nat) -> S
    decreases n,
{
    if n == 0 {
        value
    } else {
        plus_all(value, list, reach, (n - 1) as nat).plus_spec(reach[list[n - 1] as int])
    }
}

/// The number one, zero or minus one as a hand wins, ties or loses.
pub open spec fn payoff<S: Scalar>(hero: u64, villain: u64) -> S {
    let c = comparison(hero as int, villain as int);
    if c == 1 {
        S::one_spec()
    } else if c == 0 {
        S::zero_spec()
    } else {
        S::one_spec().negate_spec()
    }
}

/// The number one, zero or minus one as a hand wins, ties or loses.
pub fn payoff_of<S: Scalar>(hero: u64, villain: u64) -> (r: S)
    ensures
        r == payoff::<S>(hero, villain),
{
    let c: i8 = compare_strength(hero, villain);
    if c == 1 {
        S::one()
    } else if c == 0 {
        S::zero()
    } else {
        S::one().negate()
    }
}

impl PreparedTerminalBoard {
    /// The value of a combo against an opponent's reach, by prefix sums: the weaker combos less the
    /// stronger ones, corrected for those that share a card.
    pub open spec fn side_value<S: Scalar>(&self, reach: Seq<S>, hero: int) -> S {
        let order = self.order_spec();
        let bounds = self.bounds_spec(hero);
        let weaker = prefix_sum(order, reach, bounds.0 as nat);
        let stronger = prefix_sum(order, reach, order.len()).minus_spec(
            prefix_sum(order, reach, bounds.1 as nat),
        );
        let weaker_blockers = self.weaker_spec(hero);
        let stronger_blockers = self.stronger_spec(hero);
        plus_all(
            less_all(weaker.minus_spec(stronger), weaker_blockers, reach, weaker_blockers.len()),
            stronger_blockers,
            reach,
            stronger_blockers.len(),
        )
    }

    /// The value of the hero's combo against the first `n` combos of the opponent, pair by pair.
    pub open spec fn direct_value<S: Scalar>(&self, reach: Seq<S>, hero: int, n: nat) -> S
        decreases n,
    {
        if n == 0 {
            S::zero_spec()
        } else {
            let front = self.direct_value(reach, hero, (n - 1) as nat);
            if self.combos_spec()[hero].collides_spec(self.combos_spec()[n - 1]) {
                front
            } else {
                front.plus_spec(
                    reach[n - 1].times_spec(
                        payoff(self.strengths_spec()[hero], self.strengths_spec()[n - 1]),
                    ),
                )
            }
        }
    }

    /// The value of the villain's combo against the first `n` combos of the hero, pair by pair: what the
    /// hero wins the villain loses.
    pub open spec fn direct_loss<S: Scalar>(&self, reach: Seq<S>, villain: int, n: nat) -> S
        decreases n,
    {
        if n == 0 {
            S::zero_spec()
        } else {
            let front = self.direct_loss(reach, villain, (n - 1) as nat);
            if self.combos_spec()[n - 1].collides_spec(self.combos_spec()[villain]) {
                front
            } else {
                front.minus_spec(
                    reach[n - 1].times_spec(
                        payoff(self.strengths_spec()[n - 1], self.strengths_spec()[villain]),
                    ),
                )
            }
        }
    }

    /// The value of a combo against the first `n` entries of a list of opponent combos.
    pub open spec fn listed_value<S: Scalar>(
        &self,
        reach: Seq<S>,
        list: Seq<u16>,
        hero: int,
        n: nat,
    ) -> S
        decreases n,
    {
        if n == 0 {
            S::zero_spec()
        } else {
            let front = self.listed_value(reach, list, hero, (n - 1) as nat);
            let villain = list[n - 1] as int;
            if self.combos_spec()[hero].collides_spec(self.combos_spec()[villain]) {
                front
            } else {
                front.plus_spec(
                    reach[villain].times_spec(
                        payoff(self.strengths_spec()[hero], self.strengths_spec()[villain]),
                    ),
                )
            }
        }
    }

    /// The sums over the order, from none to all combos.
    pub fn prefix_sums_into<S: Scalar>(&self, reach: &[S], prefix: &mut Vec<S>)
        requires
            self.wf(),
            reach@.len() == self.count(),
            old(prefix)@.len() == self.count() + 1,
        ensures
            final(prefix)@.len() == self.count() + 1,
            forall|k: int|
                0 <= k <= self.count() ==> #[trigger] final(prefix)@[k] == prefix_sum(
                    self.order_spec(),
                    reach@,
                    k as nat,
                ),
    {
        proof {
            self.wf_facts();
        }
        let n: usize = self.len();
        prefix[0] = S::zero();
        for place in 0..n
            invariant
                self.wf(),
                n == self.count(),
                reach@.len() == n,
                prefix@.len() == n + 1,
                forall|k: int|
                    0 <= k <= place ==> #[trigger] prefix@[k] == prefix_sum(
                        self.order_spec(),
                        reach@,
                        k as nat,
                    ),
        {
            let next: S = prefix[place].plus(reach[self.ordered(place)]);
            prefix[place + 1] = next;
        }
    }

    /// The value of a combo from the sums over the order.
    pub fn side_value_at<S: Scalar>(&self, reach: &[S], prefix: &Vec<S>, hero: usize) -> (r: S)
        requires
            self.wf(),
            hero < self.count(),
            reach@.len() == self.count(),
            prefix@.len() == self.count() + 1,
            forall|k: int|
                0 <= k <= self.count() ==> #[trigger] prefix@[k] == prefix_sum(
                    self.order_spec(),
                    reach@,
                    k as nat,
                ),
        ensures
            r == self.side_value(reach@, hero as int),
    {
        proof {
            self.wf_facts();
            blockers_facts(self.combos_spec(), self.strengths_spec(), hero as int, -1);
            blockers_facts(self.combos_spec(), self.strengths_spec(), hero as int, 1);
        }
        let (lower, upper): (usize, usize) = self.bounds(hero);
        let weaker: S = prefix[lower];
        let stronger: S = prefix[self.len()].minus(prefix[upper]);
        let start: S = weaker.minus(stronger);
        let mut value: S = start;
        let weaker_list: &[u16] = self.weaker(hero);
        for i in 0..weaker_list.len()
            invariant
                value == less_all(start, weaker_list@, reach@, i as nat),
                forall|j: int| 0 <= j < weaker_list@.len() ==> (#[trigger] weaker_list@[j]) < reach@.len(),
        {
            value = value.minus(reach[weaker_list[i] as usize]);
        }
        let corrected: S = value;
        let stronger_list: &[u16] = self.stronger(hero);
        for i in 0..stronger_list.len()
            invariant
                value == plus_all(corrected, stronger_list@, reach@, i as nat),
                forall|j: int|
                    0 <= j < stronger_list@.len() ==> (#[trigger] stronger_list@[j]) < reach@.len(),
        {
            value = value.plus(reach[stronger_list[i] as usize]);
        }
        value
    }

    /// The value of a combo against a list of opponent combos.
    pub fn listed_value_at<S: Scalar>(&self, reach: &[S], list: &[u16], hero: usize) -> (r: S)
        requires
            self.wf(),
            hero < self.count(),
            reach@.len() == self.count(),
            forall|i: int| 0 <= i < list@.len() ==> (#[trigger] list@[i]) < self.count(),
        ensures
            r == self.listed_value(reach@, list@, hero as int, list@.len()),
    {
        proof {
            self.wf_facts();
        }
        let hero_combo: PrivateCombo = self.combo(hero);
        let hero_strength: u64 = self.strength(hero);
        let mut value: S = S::zero();
        for i in 0..list.len()
            invariant
                self.wf(),
                hero < self.count(),
                reach@.len() == self.count(),
                hero_combo == self.combos_spec()[hero as int],
                hero_strength == self.strengths_spec()[hero as int],
                forall|i: int| 0 <= i < list@.len() ==> (#[trigger] list@[i]) < self.count(),
                value == self.listed_value(reach@, list@, hero as int, i as nat),
        {
            let villain: usize = list[i] as usize;
            if !hero_combo.collides(self.combo(villain)) {
                value = value.plus(
                    reach[villain].times(payoff_of::<S>(hero_strength, self.strength(villain))),
                );
            }
        }
        value
    }
}

/// What the error about the length of reaches says.
pub open spec fn reach_length_message(count: nat) -> Seq<char> {
    around_spec("reach vectors must have "@, count, " entries"@)
}

fn reach_length_error(count: usize) -> (r: String)
    ensures
        r@ == reach_length_message(count as nat),
{
    around("reach vectors must have ", count, " entries")
}

/// What the error about the length of an input's reaches says.
pub open spec fn input_length_message(count: nat) -> Seq<char> {
    around_spec("reach vectors must have "@, count, " entries for this board"@)
}

fn zeros<S: Scalar>(n: usize) -> (r: Vec<S>)
    ensures
        r@.len() == n,
        forall|i: int| 0 <= i < n ==> #[trigger] r@[i] == S::zero_spec(),
{
    let mut values: Vec<S> = Vec::new();
    for i in 0..n
        invariant
            values@.len() == i,
            forall|j: int| 0 <= j < i ==> #[trigger] values@[j] == S::zero_spec(),
    {
        values.push(S::zero());
    }
    values
}

impl<S: Scalar> TerminalCfvScratch<S> {
    /// The hero's values.
    pub closed spec fn hero_spec(&self) -> Seq<S> {
        self.hero_values@
    }

    /// The villain's values.
    pub closed spec fn villain_spec(&self) -> Seq<S> {
        self.villain_values@
    }

    /// The sums over the order that were taken last.
    pub closed spec fn prefix_spec(&self) -> Seq<S> {
        self.prefix@
    }

    /// Whether the space is that of boards of `count` combos.
    pub open spec fn fits(&self, count: nat) -> bool {
        &&& self.prefix_spec().len() == count + 1
        &&& self.hero_spec().len() == count
        &&& self.villain_spec().len() == count
    }

    /// Space for the values of a board.
    pub fn new(prepared: &PreparedTerminalBoard) -> (r: Self)
        requires
            prepared.wf(),
        ensures
            r.fits(prepared.count()),
            forall|i: int| 0 <= i < prepared.count() ==> #[trigger] r.hero_spec()[i] == S::zero_spec(),
            forall|i: int|
                0 <= i < prepared.count() ==> #[trigger] r.villain_spec()[i] == S::zero_spec(),
    {
        proof {
            prepared.wf_facts();
        }
        let combos: usize = prepared.len();
        TerminalCfvScratch {
            prefix: zeros(combos + 1),
            hero_values: zeros(combos),
            villain_values: zeros(combos),
        }
    }

    /// The hero's values.
    pub fn hero_values(&self) -> (r: &[S])
        ensures
            r@ == self.hero_spec(),
    {
        self.hero_values.as_slice()
    }

    /// The villain's values.
    pub fn villain_values(&self) -> (r: &[S])
        ensures
            r@ == self.villain_spec(),
    {
        self.villain_values.as_slice()
    }
}

/// Whether an optional target names a combo.
pub open spec fn names_combo(targets: Seq<Option<usize>>, hero: int) -> bool {
    exists|i: int| 0 <= i < targets.len() && #[trigger] targets[i] == Some(hero as usize)
}

fn side_values_prefix_blocker_into<S: Scalar>(
    prepared: &PreparedTerminalBoard,
    opponent_reach: &[S],
    prefix: &mut Vec<S>,
    values: &mut Vec<S>,
)
    requires
        prepared.wf(),
        opponent_reach@.len() == prepared.count(),
        old(prefix)@.len() == prepared.count() + 1,
        old(values)@.len() == prepared.count(),
    ensures
        final(prefix)@.len() == prepared.count() + 1,
        final(values)@.len() == prepared.count(),
        forall|h: int|
            0 <= h < prepared.count() ==> #[trigger] final(values)@[h] == prepared.side_value(
                opponent_reach@,
                h,
            ),
{
    prepared.prefix_sums_into(opponent_reach, prefix);
    let n: usize = prepared.len();
    for hero in 0..n
        invariant
            prepared.wf(),
            n == prepared.count(),
            opponent_reach@.len() == n,
            prefix@.len() == n + 1,
            forall|k: int|
                0 <= k <= n ==> #[trigger] prefix@[k] == prefix_sum(
                    prepared.order_spec(),
                    opponent_reach@,
                    k as nat,
                ),
            values@.len() == n,
            forall|h: int|
                0 <= h < hero ==> #[trigger] values@[h] == prepared.side_value(opponent_reach@, h),
    {
        let value: S = prepared.side_value_at(opponent_reach, prefix, hero);
        values[hero] = value;
    }
}

fn side_values_prefix_blocker_targets_into<S: Scalar>(
    prepared: &PreparedTerminalBoard,
    opponent_reach: &[S],
    targets: &[Option<usize>],
    prefix: &mut Vec<S>,
    values: &mut Vec<S>,
)
    requires
        prepared.wf(),
        opponent_reach@.len() == prepared.count(),
        old(prefix)@.len() == prepared.count() + 1,
        old(values)@.len() == prepared.count(),
        forall|i: int| 0 <= i < targets@.len() && (#[trigger] targets@[i]) is Some ==> targets@[i]->0
            < prepared.count(),
    ensures
        final(prefix)@.len() == prepared.count() + 1,
        final(values)@.len() == prepared.count(),
        forall|h: int|
            0 <= h < prepared.count() ==> #[trigger] final(values)@[h] == (if names_combo(
                targets@,
                h,
            ) {
                prepared.side_value(opponent_reach@, h)
            } else {
                old(values)@[h]
            }),
{
    let ghost before = values@;
    prepared.prefix_sums_into(opponent_reach, prefix);
    let n: usize = prepared.len();
    for i in 0..targets.len()
        invariant
            prepared.wf(),
            n == prepared.count(),
            opponent_reach@.len() == n,
            prefix@.len() == n + 1,
            forall|k: int|
                0 <= k <= n ==> #[trigger] prefix@[k] == prefix_sum(
                    prepared.order_spec(),
                    opponent_reach@,
                    k as nat,
                ),
            values@.len() == n,
            before.len() == n,
            forall|i: int|
                0 <= i < targets@.len() && (#[trigger] targets@[i]) is Some ==> targets@[i]->0 < n,
            forall|h: int|
                0 <= h < n ==> #[trigger] values@[h] == (if names_combo(targets@.take(i as int), h) {
                    prepared.side_value(opponent_reach@, h)
                } else {
                    before[h]
                }),
    {
        let ghost last = values@;
        if let Some(hero) = targets[i] {
            let value: S = prepared.side_value_at(opponent_reach, prefix, hero);
            values[hero] = value;
        }
        proof {
            let was = targets@.take(i as int);
            let now = targets@.take(i + 1);
            assert forall|h: int| 0 <= h < n implies #[trigger] values@[h] == (if names_combo(now, h) {
                prepared.side_value(opponent_reach@, h)
            } else {
                before[h]
            }) by {
                assert(last[h] == (if names_combo(was, h) {
                    prepared.side_value(opponent_reach@, h)
                } else {
                    before[h]
                }));
                if names_combo(was, h) {
                    let k = choose|k: int| 0 <= k < was.len() && #[trigger] was[k] == Some(h as usize);
                    assert(now[k] == Some(h as usize));
                }
                if targets@[i as int] == Some(h as usize) {
                    assert(now[i as int] == Some(h as usize));
                } else if names_combo(now, h) {
                    let k = choose|k: int| 0 <= k < now.len() && #[trigger] now[k] == Some(h as usize);
                    assert(was[k] == Some(h as usize));
                }
            }
        }
    }
    proof {
        assert(targets@.take(targets@.len() as int) =~= targets@);
    }
}

fn side_values_prefix_blocker_board_targets_into<S: Scalar>(
    prepared: &PreparedTerminalBoard,
    opponent_reach: &[S],
    targets: &[u16],
    prefix: &mut Vec<S>,
    values: &mut Vec<S>,
)
    requires
        prepared.wf(),
        opponent_reach@.len() == prepared.count(),
        old(prefix)@.len() == prepared.count() + 1,
        old(values)@.len() == prepared.count(),
        forall|i: int| 0 <= i < targets@.len() ==> (#[trigger] targets@[i]) < prepared.count(),
    ensures
        final(prefix)@.len() == prepared.count() + 1,
        final(values)@.len() == prepared.count(),
        forall|h: int|
            0 <= h < prepared.count() ==> #[trigger] final(values)@[h] == (if targets@.contains(
                h as u16,
            ) {
                prepared.side_value(opponent_reach@, h)
            } else {
                old(values)@[h]
            }),
{
    let ghost before = values@;
    prepared.prefix_sums_into(opponent_reach, prefix);
    proof {
        prepared.wf_facts();
    }
    let n: usize = prepared.len();
    for i in 0..targets.len()
        invariant
            prepared.wf(),
            n == prepared.count(),
            n <= 0xffff,
            opponent_reach@.len() == n,
            prefix@.len() == n + 1,
            forall|k: int|
                0 <= k <= n ==> #[trigger] prefix@[k] == prefix_sum(
                    prepared.order_spec(),
                    opponent_reach@,
                    k as nat,
                ),
            values@.len() == n,
            before.len() == n,
            forall|i: int| 0 <= i < targets@.len() ==> (#[trigger] targets@[i]) < n,
            forall|h: int|
                0 <= h < n ==> #[trigger] values@[h] == (if targets@.take(i as int).contains(
                    h as u16,
                ) {
                    prepared.side_value(opponent_reach@, h)
                } else {
                    before[h]
                }),
    {
        let ghost last = values@;
        let hero: usize = targets[i] as usize;
        let value: S = prepared.side_value_at(opponent_reach, prefix, hero);
        values[hero] = value;
        proof {
            lemma_one_target(targets@, i as int);
            assert forall|h: int| 0 <= h < n implies #[trigger] values@[h] == (if targets@.take(
                i + 1,
            ).contains(h as u16) {
                prepared.side_value(opponent_reach@, h)
            } else {
                before[h]
            }) by {
                assert(last[h] == (if targets@.take(i as int).contains(h as u16) {
                    prepared.side_value(opponent_reach@, h)
                } else {
                    before[h]
                }));
            }
        }
    }
    proof {
        assert(targets@.take(targets@.len() as int) =~= targets@);
    }
}

proof fn lemma_one_target(targets: Seq<u16>, i: int)
    requires
        0 <= i < targets.len(),
    ensures
        forall|h: u16| #[trigger]
            targets.take(i + 1).contains(h) == (targets.take(i).contains(h) || targets[i] == h),
{
    let was = targets.take(i);
    let now = targets.take(i + 1);
    assert forall|h: u16| #[trigger] now.contains(h) == (was.contains(h) || targets[i] == h) by {
        if was.contains(h) {
            let k = choose|k: int| 0 <= k < was.len() && was[k] == h;
            assert(now[k] == h);
        }
        if targets[i] == h {
            assert(now[i] == h);
        }
        if now.contains(h) && targets[i] != h {
            let k = choose|k: int| 0 <= k < now.len() && now[k] == h;
            assert(was[k] == h);
        }
    }
}

fn side_values_sparse_targets_into<S: Scalar>(
    prepared: &PreparedTerminalBoard,
    opponent_reach: &[S],
    opponent_nonzero: &[u16],
    targets: &[Option<usize>],
    values: &mut Vec<S>,
)
    requires
        prepared.wf(),
        opponent_reach@.len() == prepared.count(),
        old(values)@.len() == prepared.count(),
        forall|i: int|
            0 <= i < opponent_nonzero@.len() ==> (#[trigger] opponent_nonzero@[i]) < prepared.count(),
        forall|i: int| 0 <= i < targets@.len() && (#[trigger] targets@[i]) is Some ==> targets@[i]->0
            < prepared.count(),
    ensures
        final(values)@.len() == prepared.count(),
        forall|h: int|
            0 <= h < prepared.count() ==> #[trigger] final(values)@[h] == (if names_combo(
                targets@,
                h,
            ) {
                prepared.listed_value(
                    opponent_reach@,
                    opponent_nonzero@,
                    h,
                    opponent_nonzero@.len(),
                )
            } else {
                old(values)@[h]
            }),
{
    let ghost before = values@;
    let n: usize = prepared.len();
    for i in 0..targets.len()
        invariant
            prepared.wf(),
            n == prepared.count(),
            opponent_reach@.len() == n,
            values@.len() == n,
            before.len() == n,
            forall|i: int|
                0 <= i < opponent_nonzero@.len() ==> (#[trigger] opponent_nonzero@[i]) < n,
            forall|i: int|
                0 <= i < targets@.len() && (#[trigger] targets@[i]) is Some ==> targets@[i]->0 < n,
            forall|h: int|
                0 <= h < n ==> #[trigger] values@[h] == (if names_combo(targets@.take(i as int), h) {
                    prepared.listed_value(
                        opponent_reach@,
                        opponent_nonzero@,
                        h,
                        opponent_nonzero@.len(),
                    )
                } else {
                    before[h]
                }),
    {
        let ghost last = values@;
        if let Some(hero) = targets[i] {
            let value: S = prepared.listed_value_at(opponent_reach, opponent_nonzero, hero);
            values[hero] = value;
        }
        proof {
            let was = targets@.take(i as int);
            let now = targets@.take(i + 1);
            assert forall|h: int| 0 <= h < n implies #[trigger] values@[h] == (if names_combo(now, h) {
                prepared.listed_value(
                    opponent_reach@,
                    opponent_nonzero@,
                    h,
                    opponent_nonzero@.len(),
                )
            } else {
                before[h]
            }) by {
                assert(last[h] == (if names_combo(was, h) {
                    prepared.listed_value(
                        opponent_reach@,
                        opponent_nonzero@,
                        h,
                        opponent_nonzero@.len(),
                    )
                } else {
                    before[h]
                }));
                if names_combo(was, h) {
                    let k = choose|k: int| 0 <= k < was.len() && #[trigger] was[k] == Some(h as usize);
                    assert(now[k] == Some(h as usize));
                }
                if targets@[i as int] == Some(h as usize) {
                    assert(now[i as int] == Some(h as usize));
                } else if names_combo(now, h) {
                    let k = choose|k: int| 0 <= k < now.len() && #[trigger] now[k] == Some(h as usize);
                    assert(was[k] == Some(h as usize));
                }
            }
        }
    }
    proof {
        assert(targets@.take(targets@.len() as int) =~= targets@);
    }
}

fn side_values_sparse_board_targets_into<S: Scalar>(
    prepared: &PreparedTerminalBoard,
    opponent_reach: &[S],
    opponent_nonzero: &[u16],
    targets: &[u16],
    values: &mut Vec<S>,
)
    requires
        prepared.wf(),
        opponent_reach@.len() == prepared.count(),
        old(values)@.len() == prepared.count(),
        forall|i: int|
            0 <= i < opponent_nonzero@.len() ==> (#[trigger] opponent_nonzero@[i]) < prepared.count(),
        forall|i: int| 0 <= i < targets@.len() ==> (#[trigger] targets@[i]) < prepared.count(),
    ensures
        final(values)@.len() == prepared.count(),
        forall|h: int|
            0 <= h < prepared.count() ==> #[trigger] final(values)@[h] == (if targets@.contains(
                h as u16,
            ) {
                prepared.listed_value(
                    opponent_reach@,
                    opponent_nonzero@,
                    h,
                    opponent_nonzero@.len(),
                )
            } else {
                old(values)@[h]
            }),
{
    let ghost before = values@;
    proof {
        prepared.wf_facts();
    }
    let n: usize = prepared.len();
    for i in 0..targets.len()
        invariant
            prepared.wf(),
            n == prepared.count(),
            n <= 0xffff,
            opponent_reach@.len() == n,
            values@.len() == n,
            before.len() == n,
            forall|i: int|
                0 <= i < opponent_nonzero@.len() ==> (#[trigger] opponent_nonzero@[i]) < n,
            forall|i: int| 0 <= i < targets@.len() ==> (#[trigger] targets@[i]) < n,
            forall|h: int|
                0 <= h < n ==> #[trigger] values@[h] == (if targets@.take(i as int).contains(
                    h as u16,
                ) {
                    prepared.listed_value(
                        opponent_reach@,
                        opponent_nonzero@,
                        h,
                        opponent_nonzero@.len(),
                    )
                } else {
                    before[h]
                }),
    {
        let ghost last = values@;
        let hero: usize = targets[i] as usize;
        let value: S = prepared.listed_value_at(opponent_reach, opponent_nonzero, hero);
        values[hero] = value;
        proof {
            lemma_one_target(targets@, i as int);
            assert forall|h: int| 0 <= h < n implies #[trigger] values@[h] == (if targets@.take(
                i + 1,
            ).contains(h as u16) {
                prepared.listed_value(
                    opponent_reach@,
                    opponent_nonzero@,
                    h,
                    opponent_nonzero@.len(),
                )
            } else {
                before[h]
            }) by {
                assert(last[h] == (if targets@.take(i as int).contains(h as u16) {
                    prepared.listed_value(
                        opponent_reach@,
                        opponent_nonzero@,
                        h,
                        opponent_nonzero@.len(),
                    )
                } else {
                    before[h]
                }));
            }
        }
    }
    proof {
        assert(targets@.take(targets@.len() as int) =~= targets@);
    }
}

/// The values of both players' combos, by prefix sums.
pub fn terminal_cfv_prefix_blocker_into<S: Scalar>(
    prepared: &PreparedTerminalBoard,
    hero_reach: &[S],
    villain_reach: &[S],
    scratch: &mut TerminalCfvScratch<S>,
) -> (r: Result<(), String>)
    requires
        prepared.wf(),
        old(scratch).fits(prepared.count()),
    ensures
        final(scratch).fits(prepared.count()),
        match r {
            Ok(_) => {
                &&& hero_reach@.len() == prepared.count() && villain_reach@.len() == prepared.count()
                &&& forall|h: int|
                    0 <= h < prepared.count() ==> #[trigger] final(scratch).hero_spec()[h]
                        == prepared.side_value(villain_reach@, h)
                &&& forall|v: int|
                    0 <= v < prepared.count() ==> #[trigger] final(scratch).villain_spec()[v]
                        == prepared.side_value(hero_reach@, v)
            },
            Err(message) => {
                &&& hero_reach@.len() != prepared.count() || villain_reach@.len() != prepared.count()
                &&& message@ == reach_length_message(prepared.count())
                &&& *final(scratch) == *old(scratch)
            },
        },
{
    let combos: usize = prepared.len();
    if hero_reach.len() != combos || villain_reach.len() != combos {
        return Err(reach_length_error(combos));
    }
    side_values_prefix_blocker_into(
        prepared,
        villain_reach,
        &mut scratch.prefix,
        &mut scratch.hero_values,
    );
    side_values_prefix_blocker_into(
        prepared,
        hero_reach,
        &mut scratch.prefix,
        &mut scratch.villain_values,
    );
    Ok(())
}

/// The values of the combos that the targets name, by prefix sums; the other values stay.
pub fn terminal_cfv_prefix_blocker_targets_into<S: Scalar>(
    prepared: &PreparedTerminalBoard,
    hero_reach: &[S],
    villain_reach: &[S],
    hero_targets: &[Option<usize>],
    villain_targets: &[Option<usize>],
    scratch: &mut TerminalCfvScratch<S>,
) -> (r: Result<(), String>)
    requires
        prepared.wf(),
        old(scratch).fits(prepared.count()),
        forall|i: int|
            0 <= i < hero_targets@.len() && (#[trigger] hero_targets@[i]) is Some
                ==> hero_targets@[i]->0 < prepared.count(),
        forall|i: int|
            0 <= i < villain_targets@.len() && (#[trigger] villain_targets@[i]) is Some
                ==> villain_targets@[i]->0 < prepared.count(),
    ensures
        final(scratch).fits(prepared.count()),
        match r {
            Ok(_) => {
                &&& hero_reach@.len() == prepared.count() && villain_reach@.len() == prepared.count()
                &&& forall|h: int|
                    0 <= h < prepared.count() ==> #[trigger] final(scratch).hero_spec()[h] == (
                    if names_combo(hero_targets@, h) {
                        prepared.side_value(villain_reach@, h)
                    } else {
                        old(scratch).hero_spec()[h]
                    })
                &&& forall|v: int|
                    0 <= v < prepared.count() ==> #[trigger] final(scratch).villain_spec()[v] == (
                    if names_combo(villain_targets@, v) {
                        prepared.side_value(hero_reach@, v)
                    } else {
                        old(scratch).villain_spec()[v]
                    })
            },
            Err(message) => {
                &&& hero_reach@.len() != prepared.count() || villain_reach@.len() != prepared.count()
                &&& message@ == reach_length_message(prepared.count())
                &&& *final(scratch) == *old(scratch)
            },
        },
{
    let combos: usize = prepared.len();
    if hero_reach.len() != combos || villain_reach.len() != combos {
        return Err(reach_length_error(combos));
    }
    side_values_prefix_blocker_targets_into(
        prepared,
        villain_reach,
        hero_targets,
        &mut scratch.prefix,
        &mut scratch.hero_values,
    );
    side_values_prefix_blocker_targets_into(
        prepared,
        hero_reach,
        villain_targets,
        &mut scratch.prefix,
        &mut scratch.villain_values,
    );
    Ok(())
}

/// The values of the combos that the targets list, by prefix sums; the other values stay.
pub fn terminal_cfv_prefix_blocker_board_targets_into<S: Scalar>(
    prepared: &PreparedTerminalBoard,
    hero_reach: &[S],
    villain_reach: &[S],
    hero_targets: &[u16],
    villain_targets: &[u16],
    scratch: &mut TerminalCfvScratch<S>,
) -> (r: Result<(), String>)
    requires
        prepared.wf(),
        old(scratch).fits(prepared.count()),
        forall|i: int| 0 <= i < hero_targets@.len() ==> (#[trigger] hero_targets@[i]) < prepared.count(),
        forall|i: int|
            0 <= i < villain_targets@.len() ==> (#[trigger] villain_targets@[i]) < prepared.count(),
    ensures
        final(scratch).fits(prepared.count()),
        match r {
            Ok(_) => {
                &&& hero_reach@.len() == prepared.count() && villain_reach@.len() == prepared.count()
                &&& forall|h: int|
                    0 <= h < prepared.count() ==> #[trigger] final(scratch).hero_spec()[h] == (
                    if hero_targets@.contains(h as u16) {
                        prepared.side_value(villain_reach@, h)
                    } else {
                        old(scratch).hero_spec()[h]
                    })
                &&& forall|v: int|
                    0 <= v < prepared.count() ==> #[trigger] final(scratch).villain_spec()[v] == (
                    if villain_targets@.contains(v as u16) {
                        prepared.side_value(hero_reach@, v)
                    } else {
                        old(scratch).villain_spec()[v]
                    })
            },
            Err(message) => {
                &&& hero_reach@.len() != prepared.count() || villain_reach@.len() != prepared.count()
                &&& message@ == reach_length_message(prepared.count())
                &&& *final(scratch) == *old(scratch)
            },
        },
{
    let combos: usize = prepared.len();
    if hero_reach.len() != combos || villain_reach.len() != combos {
        return Err(reach_length_error(combos));
    }
    side_values_prefix_blocker_board_targets_into(
        prepared,
        villain_reach,
        hero_targets,
        &mut scratch.prefix,
        &mut scratch.hero_values,
    );
    side_values_prefix_blocker_board_targets_into(
        prepared,
        hero_reach,
        villain_targets,
        &mut scratch.prefix,
        &mut scratch.villain_values,
    );
    Ok(())
}

/// The values of the combos that the targets name, against the listed combos of the opponent; the other
/// values stay.
pub fn terminal_cfv_sparse_targets_into<S: Scalar>(
    prepared: &PreparedTerminalBoard,
    hero_reach: &[S],
    villain_reach: &[S],
    hero_nonzero: &[u16],
    villain_nonzero: &[u16],
    hero_targets: &[Option<usize>],
    villain_targets: &[Option<usize>],
    scratch: &mut TerminalCfvScratch<S>,
) -> (r: Result<(), String>)
    requires
        prepared.wf(),
        old(scratch).fits(prepared.count()),
        forall|i: int| 0 <= i < hero_nonzero@.len() ==> (#[trigger] hero_nonzero@[i]) < prepared.count(),
        forall|i: int|
            0 <= i < villain_nonzero@.len() ==> (#[trigger] villain_nonzero@[i]) < prepared.count(),
        forall|i: int|
            0 <= i < hero_targets@.len() && (#[trigger] hero_targets@[i]) is Some
                ==> hero_targets@[i]->0 < prepared.count(),
        forall|i: int|
            0 <= i < villain_targets@.len() && (#[trigger] villain_targets@[i]) is Some
                ==> villain_targets@[i]->0 < prepared.count(),
    ensures
        final(scratch).fits(prepared.count()),
        match r {
            Ok(_) => {
                &&& hero_reach@.len() == prepared.count() && villain_reach@.len() == prepared.count()
                &&& forall|h: int|
                    0 <= h < prepared.count() ==> #[trigger] final(scratch).hero_spec()[h] == (
                    if names_combo(hero_targets@, h) {
                        prepared.listed_value(
                            villain_reach@,
                            villain_nonzero@,
                            h,
                            villain_nonzero@.len(),
                        )
                    } else {
                        old(scratch).hero_spec()[h]
                    })
                &&& forall|v: int|
                    0 <= v < prepared.count() ==> #[trigger] final(scratch).villain_spec()[v] == (
                    if names_combo(villain_targets@, v) {
                        prepared.listed_value(hero_reach@, hero_nonzero@, v, hero_nonzero@.len())
                    } else {
                        old(scratch).villain_spec()[v]
                    })
            },
            Err(message) => {
                &&& hero_reach@.len() != prepared.count() || villain_reach@.len() != prepared.count()
                &&& message@ == reach_length_message(prepared.count())
                &&& *final(scratch) == *old(scratch)
            },
        },
{
    let combos: usize = prepared.len();
    if hero_reach.len() != combos || villain_reach.len() != combos {
        return Err(reach_length_error(combos));
    }
    side_values_sparse_targets_into(
        prepared,
        villain_reach,
        villain_nonzero,
        hero_targets,
        &mut scratch.hero_values,
    );
    side_values_sparse_targets_into(
        prepared,
        hero_reach,
        hero_nonzero,
        villain_targets,
        &mut scratch.villain_values,
    );
    Ok(())
}

/// The values of the combos that the targets list, against the listed combos of the opponent; the other
/// values stay.
pub fn terminal_cfv_sparse_board_targets_into<S: Scalar>(
    prepared: &PreparedTerminalBoard,
    hero_reach: &[S],
    villain_reach: &[S],
    hero_nonzero: &[u16],
    villain_nonzero: &[u16],
    hero_targets: &[u16],
    villain_targets: &[u16],
    scratch: &mut TerminalCfvScratch<S>,
) -> (r: Result<(), String>)
    requires
        prepared.wf(),
        old(scratch).fits(prepared.count()),
        forall|i: int| 0 <= i < hero_nonzero@.len() ==> (#[trigger] hero_nonzero@[i]) < prepared.count(),
        forall|i: int|
            0 <= i < villain_nonzero@.len() ==> (#[trigger] villain_nonzero@[i]) < prepared.count(),
        forall|i: int| 0 <= i < hero_targets@.len() ==> (#[trigger] hero_targets@[i]) < prepared.count(),
        forall|i: int|
            0 <= i < villain_targets@.len() ==> (#[trigger] villain_targets@[i]) < prepared.count(),
    ensures
        final(scratch).fits(prepared.count()),
        match r {
            Ok(_) => {
                &&& hero_reach@.len() == prepared.count() && villain_reach@.len() == prepared.count()
                &&& forall|h: int|
                    0 <= h < prepared.count() ==> #[trigger] final(scratch).hero_spec()[h] == (
                    if hero_targets@.contains(h as u16) {
                        prepared.listed_value(
                            villain_reach@,
                            villain_nonzero@,
                            h,
                            villain_nonzero@.len(),
                        )
                    } else {
                        old(scratch).hero_spec()[h]
                    })
                &&& forall|v: int|
                    0 <= v < prepared.count() ==> #[trigger] final(scratch).villain_spec()[v] == (
                    if villain_targets@.contains(v as u16) {
                        prepared.listed_value(hero_reach@, hero_nonzero@, v, hero_nonzero@.len())
                    } else {
                        old(scratch).villain_spec()[v]
                    })
            },
            Err(message) => {
                &&& hero_reach@.len() != prepared.count() || villain_reach@.len() != prepared.count()
                &&& message@ == reach_length_message(prepared.count())
                &&& *final(scratch) == *old(scratch)
            },
        },
{
    let combos: usize = prepared.len();
    if hero_reach.len() != combos || villain_reach.len() != combos {
        return Err(reach_length_error(combos));
    }
    side_values_sparse_board_targets_into(
        prepared,
        villain_reach,
        villain_nonzero,
        hero_targets,
        &mut scratch.hero_values,
    );
    side_values_sparse_board_targets_into(
        prepared,
        hero_reach,
        hero_nonzero,
        villain_targets,
        &mut scratch.villain_values,
    );
    Ok(())
}

/// Whether the reaches of an input are as long as the combos of its board.
fn validate_reach<S: Scalar>(input: &TerminalCfvInput<S>, combos: usize) -> (r: Result<(), String>)
    ensures
        match r {
            Ok(_) => input.hero_reach@.len() == combos && input.villain_reach@.len() == combos,
            Err(message) => (input.hero_reach@.len() != combos || input.villain_reach@.len() != combos)
                && message@ == input_length_message(combos as nat),
        },
{
    if input.hero_reach.len() != combos || input.villain_reach.len() != combos {
        return Err(around("reach vectors must have ", combos, " entries for this board"));
    }
    Ok(())
}

/// The values of both players' combos, pair by pair.
pub fn terminal_cfv_bruteforce_prepared<S: Scalar>(
    prepared: &PreparedTerminalBoard,
    input: &TerminalCfvInput<S>,
) -> (r: Result<TerminalCfvOutput<S>, String>)
    requires
        prepared.wf(),
    ensures
        match r {
            Ok(output) => {
                &&& input.hero_reach@.len() == prepared.count()
                &&& input.villain_reach@.len() == prepared.count()
                &&& output.hero_values@.len() == prepared.count()
                &&& output.villain_values@.len() == prepared.count()
                &&& forall|h: int|
                    0 <= h < prepared.count() ==> #[trigger] output.hero_values@[h]
                        == prepared.direct_value(input.villain_reach@, h, prepared.count())
                &&& forall|v: int|
                    0 <= v < prepared.count() ==> #[trigger] output.villain_values@[v]
                        == prepared.direct_loss(input.hero_reach@, v, prepared.count())
            },
            Err(message) => {
                &&& input.hero_reach@.len() != prepared.count() || input.villain_reach@.len()
                    != prepared.count()
                &&& message@ == input_length_message(prepared.count())
            },
        },
{
    let n: usize = prepared.len();
    proof {
        prepared.wf_facts();
    }
    match validate_reach(input, n) {
        Ok(_) => {},
        Err(message) => {
            return Err(message);
        },
    }
    let mut hero_values: Vec<S> = zeros(n);
    let mut villain_values: Vec<S> = zeros(n);
    for hero in 0..n
        invariant
            prepared.wf(),
            n == prepared.count(),
            input.hero_reach@.len() == n,
            input.villain_reach@.len() == n,
            hero_values@.len() == n,
            villain_values@.len() == n,
            forall|h: int|
                0 <= h < hero ==> #[trigger] hero_values@[h] == prepared.direct_value(
                    input.villain_reach@,
                    h,
                    n as nat,
                ),
            forall|h: int| hero <= h < n ==> #[trigger] hero_values@[h] == S::zero_spec(),
            forall|v: int|
                0 <= v < n ==> #[trigger] villain_values@[v] == prepared.direct_loss(
                    input.hero_reach@,
                    v,
                    hero as nat,
                ),
    {
        for villain in 0..n
            invariant
                prepared.wf(),
                hero < n,
                n == prepared.count(),
                input.hero_reach@.len() == n,
                input.villain_reach@.len() == n,
                hero_values@.len() == n,
                villain_values@.len() == n,
                forall|h: int|
                    0 <= h < hero ==> #[trigger] hero_values@[h] == prepared.direct_value(
                        input.villain_reach@,
                        h,
                        n as nat,
                    ),
                forall|h: int| hero < h < n ==> #[trigger] hero_values@[h] == S::zero_spec(),
                hero_values@[hero as int] == prepared.direct_value(
                    input.villain_reach@,
                    hero as int,
                    villain as nat,
                ),
                forall|v: int|
                    0 <= v < villain ==> #[trigger] villain_values@[v] == prepared.direct_loss(
                        input.hero_reach@,
                        v,
                        (hero + 1) as nat,
                    ),
                forall|v: int|
                    villain <= v < n ==> #[trigger] villain_values@[v] == prepared.direct_loss(
                        input.hero_reach@,
                        v,
                        hero as nat,
                    ),
        {
            if !prepared.combo(hero).collides(prepared.combo(villain)) {
                let payoff: S = payoff_of(prepared.strength(hero), prepared.strength(villain));
                let gain: S = hero_values[hero].plus(input.villain_reach[villain].times(payoff));
                let loss: S = villain_values[villain].minus(input.hero_reach[hero].times(payoff));
                hero_values[hero] = gain;
                villain_values[villain] = loss;
            }
        }
    }
    Ok(TerminalCfvOutput { hero_values, villain_values })
}

/// The values of both players' combos, pair by pair.
pub fn terminal_cfv_bruteforce<S: Scalar>(input: &TerminalCfvInput<S>) -> (r: Result<
    TerminalCfvOutput<S>,
    String,
>)
    requires
        input.board.wf(),
    ensures
        r is Ok == (input.board@.len() == 5 && input.hero_reach@.len() == 1081
            && input.villain_reach@.len() == 1081),
        match r {
            Ok(output) => exists|prepared: PreparedTerminalBoard|
                prepares(&prepared, input.board@) && #[trigger] direct_values_of(
                    &prepared,
                    input,
                    &output,
                ),
            Err(message) => message@ == (if input.board@.len() != 5 {
                "terminal CFV requires a five-card board"@
            } else {
                input_length_message(1081)
            }),
        },
{
    match PreparedTerminalBoard::new(&input.board) {
        Ok(prepared) => {
            let r = terminal_cfv_bruteforce_prepared(&prepared, input);
            proof {
                if r is Ok {
                    assert(direct_values_of(&prepared, input, &r->Ok_0));
                }
            }
            r
        },
        Err(message) => Err(message),
    }
}

/// Whether tables are those of a board.
pub open spec fn prepares(prepared: &PreparedTerminalBoard, board: Seq<Card>) -> bool {
    &&& prepared.wf()
    &&& prepared.combos_spec() == crate::terminal_board::combos_of(deck_without(board))
    &&& prepared.count() == 1081
    &&& forall|i: int|
        0 <= i < prepared.count() ==> #[trigger] prepared.strengths_spec()[i]
            == crate::terminal_board::strength_on(board, prepared.combos_spec()[i])
}

/// Whether an output holds the values taken pair by pair.
pub open spec fn direct_values_of<S: Scalar>(
    prepared: &PreparedTerminalBoard,
    input: &TerminalCfvInput<S>,
    output: &TerminalCfvOutput<S>,
) -> bool {
    &&& output.hero_values@.len() == prepared.count()
    &&& output.villain_values@.len() == prepared.count()
    &&& forall|h: int|
        0 <= h < prepared.count() ==> #[trigger] output.hero_values@[h] == prepared.direct_value(
            input.villain_reach@,
            h,
            prepared.count(),
        )
    &&& forall|v: int|
        0 <= v < prepared.count() ==> #[trigger] output.villain_values@[v] == prepared.direct_loss(
            input.hero_reach@,
            v,
            prepared.count(),
        )
}

/// Whether an output holds the values taken by prefix sums.
pub open spec fn prefix_values_of<S: Scalar>(
    prepared: &PreparedTerminalBoard,
    input: &TerminalCfvInput<S>,
    output: &TerminalCfvOutput<S>,
) -> bool {
    &&& output.hero_values@.len() == prepared.count()
    &&& output.villain_values@.len() == prepared.count()
    &&& forall|h: int|
        0 <= h < prepared.count() ==> #[trigger] output.hero_values@[h] == prepared.side_value(
            input.villain_reach@,
            h,
        )
    &&& forall|v: int|
        0 <= v < prepared.count() ==> #[trigger] output.villain_values@[v] == prepared.side_value(
            input.hero_reach@,
            v,
        )
}

/// The values of both players' combos, by prefix sums.
pub fn terminal_cfv_prefix_blocker_prepared<S: Scalar>(
    prepared: &PreparedTerminalBoard,
    input: &TerminalCfvInput<S>,
) -> (r: Result<TerminalCfvOutput<S>, String>)
    requires
        prepared.wf(),
    ensures
        match r {
            Ok(output) => {
                &&& input.hero_reach@.len() == prepared.count()
                &&& input.villain_reach@.len() == prepared.count()
                &&& prefix_values_of(prepared, input, &output)
            },
            Err(message) => {
                &&& input.hero_reach@.len() != prepared.count() || input.villain_reach@.len()
                    != prepared.count()
                &&& message@ == input_length_message(prepared.count())
            },
        },
{
    match validate_reach(input, prepared.len()) {
        Ok(_) => {},
        Err(message) => {
            return Err(message);
        },
    }
    let mut scratch: TerminalCfvScratch<S> = TerminalCfvScratch::new(prepared);
    match terminal_cfv_prefix_blocker_into(
        prepared,
        input.hero_reach.as_slice(),
        input.villain_reach.as_slice(),
        &mut scratch,
    ) {
        Ok(_) => {},
        Err(message) => {
            return Err(message);
        },
    }
    Ok(
        TerminalCfvOutput { hero_values: scratch.hero_values, villain_values: scratch.villain_values },
    )
}

/// The values of both players' combos, by prefix sums.
pub fn terminal_cfv_prefix_blocker<S: Scalar>(input: &TerminalCfvInput<S>) -> (r: Result<
    TerminalCfvOutput<S>,
    String,
>)
    requires
        input.board.wf(),
    ensures
        r is Ok == (input.board@.len() == 5 && input.hero_reach@.len() == 1081
            && input.villain_reach@.len() == 1081),
        match r {
            Ok(output) => exists|prepared: PreparedTerminalBoard|
                prepares(&prepared, input.board@) && #[trigger] prefix_values_of(
                    &prepared,
                    input,
                    &output,
                ),
            Err(message) => message@ == (if input.board@.len() != 5 {
                "terminal CFV requires a five-card board"@
            } else {
                input_length_message(1081)
            }),
        },
{
    match PreparedTerminalBoard::new(&input.board) {
        Ok(prepared) => {
            let r = terminal_cfv_prefix_blocker_prepared(&prepared, input);
            proof {
                if r is Ok {
                    assert(prefix_values_of(&prepared, input, &r->Ok_0));
                }
            }
            r
        },
        Err(message) => Err(message),
    }
}

} // verus!
