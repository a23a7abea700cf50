//! The analysis of a seat with a short stack, question by question.
use vstd::prelude::*;
use crate::arith::{capped, capped_product, floored};
use crate::hand_class::{all_hand_classes, class_rows, HandClass};
use crate::scalar::{ratio, ratio_spec, Scalar};
use crate::short_stack::{
    all_valid, call_results, dead_pot_spec, hands_of, posted_amount, posted_amount_spec,
    profitable_call_range, profitable_shove_results, required_equity_spec, result_hands,
    results_valid, sample_range, sampled_range, shove_results, survival_required_equity,
    top_fraction_by_heuristic, top_fraction_spec, HandResult, SeatRanges, ShortStackConfig,
    ShortStackReport,
};
use crate::structure::{orbit_cost, orbit_cost_spec};

verus! {

/// How many shovers a caller looks at.
pub const CALL_SAMPLE: usize = 32;

/// What an analysis wants to know next.
#[derive(Clone, Copy, Debug, PartialEq, Eq, Structural)]
pub enum SeatStep {
    Shove,
    Call,
    LastShove,
    LastCall,
    Overcall,
    Done,
}

/// What is known of a seat before any hand is looked at.
#[derive(Clone, Copy, Debug)]
pub struct SeatFacts<S> {
    pub seat_index: u8,
    pub players_behind: u8,
    pub posted_amount: u32,
    pub dead_pot: u32,
    pub all_in_cost: u32,
    pub call_required_equity: S,
    pub overcall_required_equity: S,
    pub range_sample_limit: usize,
    pub max_boards_per_combo: usize,
}

/// What is known of a seat before any hand is looked at.
pub open spec fn seat_facts<S: Scalar>(config: ShortStackConfig, seat_index: u8) -> SeatFacts<S> {
    let posted = posted_amount_spec(config.level, config.alive_players, seat_index) as u32;
    let dead_pot = dead_pot_spec(config.level, config.alive_players) as u32;
    let cost = floored(config.stack - posted) as u32;
    let orbit = orbit_cost_spec(config.level, config.alive_players) as u32;
    SeatFacts {
        seat_index,
        players_behind: floored(config.alive_players - seat_index - 1) as u8,
        posted_amount: posted,
        dead_pot,
        all_in_cost: cost,
        call_required_equity: required_equity_spec::<S>(
            cost,
            (dead_pot + capped(2 * cost)) as u32,
            orbit,
        ),
        overcall_required_equity: required_equity_spec::<S>(
            cost,
            (dead_pot + capped(3 * cost)) as u32,
            orbit,
        ),
        range_sample_limit: config.range_sample_limit,
        max_boards_per_combo: config.max_boards_per_combo,
    }
}

/// The hands whose share of the pot an analysis wants to know, against whom, and over how many boards
/// at most for each pair of hands.
#[derive(Clone, Debug)]
pub struct SeatQuestion {
    pub hands: Vec<HandClass>,
    pub against: Vec<HandClass>,
    pub also_against: Option<Vec<HandClass>>,
    pub max_boards_per_combo: usize,
}

/// The analysis of a seat.
#[derive(Clone, Debug)]
pub struct SeatAnalysis<S> {
    pub facts: SeatFacts<S>,
    pub step: SeatStep,
    pub rounds_left: usize,
    pub call_range: Vec<HandClass>,
    pub shove_results: Vec<HandResult<S>>,
    pub call_results: Vec<HandResult<S>>,
    pub overcall_results: Vec<HandResult<S>>,
}

/// The analysis of a seat, by value.
pub ghost struct SeatView<S> {
    pub facts: SeatFacts<S>,
    pub step: SeatStep,
    pub rounds_left: nat,
    pub call_range: Seq<HandClass>,
    pub shove_results: Seq<HandResult<S>>,
    pub call_results: Seq<HandResult<S>>,
    pub overcall_results: Seq<HandResult<S>>,
}

impl<S: Scalar> View for SeatAnalysis<S> {
    type V = SeatView<S>;

    open spec fn view(&self) -> SeatView<S> {
        SeatView {
            facts: self.facts,
            step: self.step,
            rounds_left: self.rounds_left as nat,
            call_range: self.call_range@,
            shove_results: self.shove_results@,
            call_results: self.call_results@,
            overcall_results: self.overcall_results@,
        }
    }
}

/// The step before which a number of rounds is left.
pub open spec fn round_step(rounds_left: nat) -> SeatStep {
    if rounds_left == 0 {
        SeatStep::LastShove
    } else {
        SeatStep::Shove
    }
}

/// An analysis before its first question. It starts from the top quarter as callers.
pub open spec fn opened<S: Scalar>(config: ShortStackConfig, seat_index: u8) -> SeatView<S> {
    SeatView {
        facts: seat_facts(config, seat_index),
        step: round_step(config.iterations as nat),
        rounds_left: config.iterations as nat,
        call_range: top_fraction_spec(class_rows(13), ratio_spec::<S>(1, 4)),
        shove_results: Seq::empty(),
        call_results: Seq::empty(),
        overcall_results: Seq::empty(),
    }
}

impl<S: Scalar> SeatView<S> {
    /// The hands that are asked for: all, or the top fifth for overcalls.
    pub open spec fn asked(self) -> Seq<HandClass> {
        match self.step {
            SeatStep::Overcall => top_fraction_spec(class_rows(13), ratio_spec::<S>(1, 5)),
            SeatStep::Done => Seq::empty(),
            _ => class_rows(13),
        }
    }

    /// The range they are asked against.
    pub open spec fn opposed(self) -> Seq<HandClass> {
        let limit = self.facts.range_sample_limit as nat;
        match self.step {
            SeatStep::Shove | SeatStep::LastShove => sampled_range(self.call_range, limit),
            SeatStep::Call | SeatStep::LastCall => sampled_range(
                hands_of(self.shove_results),
                CALL_SAMPLE as nat,
            ),
            SeatStep::Overcall => sampled_range(hands_of(self.shove_results), limit),
            SeatStep::Done => Seq::empty(),
        }
    }

    /// The second range they are asked against.
    pub open spec fn also_opposed(self) -> Option<Seq<HandClass>> {
        match self.step {
            SeatStep::Overcall => Some(
                sampled_range(self.call_range, self.facts.range_sample_limit as nat),
            ),
            _ => None,
        }
    }

    /// The hands that are worth shoving by their shares.
    pub open spec fn shoved(self, shares: Seq<S>) -> Seq<HandResult<S>> {
        shove_results(
            class_rows(13),
            shares,
            self.call_range,
            self.facts.players_behind,
            self.facts.dead_pot,
            self.facts.all_in_cost,
        )
    }

    /// The hands that are worth a call by their shares.
    pub open spec fn called(self, shares: Seq<S>) -> Seq<HandResult<S>> {
        call_results(class_rows(13), shares, self.facts.call_required_equity)
    }

    /// The analysis after the shares that it asked for. A round turns callers into shovers and these
    /// into callers; what is left after the rounds is what is reported.
    pub open spec fn answered(self, shares: Seq<S>) -> SeatView<S> {
        match self.step {
            SeatStep::Shove => SeatView {
                shove_results: self.shoved(shares),
                step: SeatStep::Call,
                ..self
            },
            SeatStep::Call => SeatView {
                call_range: hands_of(self.called(shares)),
                rounds_left: (self.rounds_left - 1) as nat,
                step: round_step((self.rounds_left - 1) as nat),
                ..self
            },
            SeatStep::LastShove => SeatView {
                shove_results: self.shoved(shares),
                step: SeatStep::LastCall,
                ..self
            },
            SeatStep::LastCall => SeatView {
                call_results: self.called(shares),
                step: SeatStep::Overcall,
                ..self
            },
            SeatStep::Overcall => SeatView {
                overcall_results: call_results(
                    self.asked(),
                    shares,
                    self.facts.overcall_required_equity,
                ),
                step: SeatStep::Done,
                ..self
            },
            SeatStep::Done => self,
        }
    }

    /// How many questions are left.
    pub open spec fn questions_left(self) -> nat {
        match self.step {
            SeatStep::Shove => 2 * self.rounds_left + 3,
            SeatStep::Call => (2 * self.rounds_left + 2) as nat,
            SeatStep::LastShove => 3,
            SeatStep::LastCall => 2,
            SeatStep::Overcall => 1,
            SeatStep::Done => 0,
        }
    }
}

impl<S: Scalar> SeatAnalysis<S> {
    /// Whether the pot can be counted, the classes are of the deck and the rounds left fit the step.
    pub open spec fn wf(self) -> bool {
        &&& self.facts.dead_pot + capped(3 * self.facts.all_in_cost) <= u32::MAX
        &&& all_valid(self.call_range@)
        &&& self.call_range@.len() <= 169
        &&& results_valid(self.shove_results@)
        &&& (self.step is Shove || self.step is Call) ==> self.rounds_left > 0
        &&& self.step is LastShove ==> self.rounds_left == 0
    }

    /// The analysis of a seat before its first question.
    pub fn open(config: &ShortStackConfig, seat_index: u8) -> (r: Self)
        requires
            config.fits(),
        ensures
            r@ == opened::<S>(*config, seat_index),
            r.wf(),
    {
        let posted: u32 = posted_amount(config.level, config.alive_players, seat_index);
        let dead_pot: u32 = config.level.small_blind + config.level.big_blind + capped_product(
            config.level.per_player_ante,
            config.alive_players as u32,
        );
        let cost: u32 = config.stack.saturating_sub(posted);
        let orbit: u32 = orbit_cost(config.level, config.alive_players);
        let facts: SeatFacts<S> = SeatFacts {
            seat_index,
            players_behind: config.alive_players.saturating_sub(seat_index).saturating_sub(1),
            posted_amount: posted,
            dead_pot,
            all_in_cost: cost,
            call_required_equity: survival_required_equity(
                cost,
                dead_pot + capped_product(cost, 2),
                orbit,
            ),
            overcall_required_equity: survival_required_equity(
                cost,
                dead_pot + capped_product(cost, 3),
                orbit,
            ),
            range_sample_limit: config.range_sample_limit,
            max_boards_per_combo: config.max_boards_per_combo,
        };
        let classes: Vec<HandClass> = all_hand_classes();
        let call_range: Vec<HandClass> = top_fraction_by_heuristic(&classes, ratio::<S>(1, 4));
        SeatAnalysis {
            facts,
            step: if config.iterations == 0 {
                SeatStep::LastShove
            } else {
                SeatStep::Shove
            },
            rounds_left: config.iterations,
            call_range,
            shove_results: Vec::new(),
            call_results: Vec::new(),
            overcall_results: Vec::new(),
        }
    }

    /// The hands whose share of the pot the analysis wants to know, or nothing once it is done.
    pub fn question(&self) -> (r: Option<SeatQuestion>)
        ensures
            match r {
                Some(question) => {
                    &&& self.step !is Done
                    &&& question.hands@ == self@.asked()
                    &&& question.against@ == self@.opposed()
                    &&& question.max_boards_per_combo == self.facts.max_boards_per_combo
                    &&& match question.also_against {
                        Some(range) => self@.also_opposed() == Some(range@),
                        None => self@.also_opposed() is None,
                    }
                },
                None => self.step is Done,
            },
    {
        let limit: usize = self.facts.range_sample_limit;
        let max_boards_per_combo: usize = self.facts.max_boards_per_combo;
        let classes: Vec<HandClass> = all_hand_classes();
        match self.step {
            SeatStep::Shove | SeatStep::LastShove => Some(
                SeatQuestion {
                    hands: classes,
                    against: sample_range(&self.call_range, limit),
                    also_against: None,
                    max_boards_per_combo,
                },
            ),
            SeatStep::Call | SeatStep::LastCall => {
                let shovers: Vec<HandClass> = result_hands(&self.shove_results);
                Some(
                    SeatQuestion {
                        hands: classes,
                        against: sample_range(&shovers, CALL_SAMPLE),
                        also_against: None,
                        max_boards_per_combo,
                    },
                )
            },
            SeatStep::Overcall => {
                let shovers: Vec<HandClass> = result_hands(&self.shove_results);
                Some(
                    SeatQuestion {
                        hands: top_fraction_by_heuristic(&classes, ratio::<S>(1, 5)),
                        against: sample_range(&shovers, limit),
                        also_against: Some(sample_range(&self.call_range, limit)),
                        max_boards_per_combo,
                    },
                )
            },
            SeatStep::Done => None,
        }
    }

    /// Goes on with the shares of the hands that were asked for.
    pub fn answer(&mut self, shares: &[S])
        requires
            old(self).wf(),
            shares@.len() == old(self)@.asked().len(),
        ensures
            final(self)@ == old(self)@.answered(shares@),
            final(self).wf(),
    {
        let classes: Vec<HandClass> = all_hand_classes();
        let facts: SeatFacts<S> = self.facts;
        match self.step {
            SeatStep::Shove => {
                self.shove_results = profitable_shove_results(
                    &classes,
                    shares,
                    &self.call_range,
                    facts.players_behind,
                    facts.dead_pot,
                    facts.all_in_cost,
                );
                self.step = SeatStep::Call;
            },
            SeatStep::Call => {
                let results: Vec<HandResult<S>> = profitable_call_range(
                    &classes,
                    shares,
                    facts.call_required_equity,
                );
                self.call_range = result_hands(&results);
                self.rounds_left = self.rounds_left - 1;
                self.step = if self.rounds_left == 0 {
                    SeatStep::LastShove
                } else {
                    SeatStep::Shove
                };
            },
            SeatStep::LastShove => {
                self.shove_results = profitable_shove_results(
                    &classes,
                    shares,
                    &self.call_range,
                    facts.players_behind,
                    facts.dead_pot,
                    facts.all_in_cost,
                );
                self.step = SeatStep::LastCall;
            },
            SeatStep::LastCall => {
                self.call_results = profitable_call_range(
                    &classes,
                    shares,
                    facts.call_required_equity,
                );
                self.step = SeatStep::Overcall;
            },
            SeatStep::Overcall => {
                let asked: Vec<HandClass> = top_fraction_by_heuristic(
                    &classes,
                    ratio::<S>(1, 5),
                );
                self.overcall_results = profitable_call_range(
                    &asked,
                    shares,
                    facts.overcall_required_equity,
                );
                self.step = SeatStep::Done;
            },
            SeatStep::Done => {},
        }
    }

    /// What the seat shoves, calls and overcalls with. The last seat shoves into nobody.
    pub fn ranges(self) -> (r: SeatRanges<S>)
        requires
            self.step is Done,
        ensures
            r.seat_index == self.facts.seat_index,
            r.players_behind == self.facts.players_behind,
            r.posted_amount == self.facts.posted_amount,
            r.call_required_equity == self.facts.call_required_equity,
            r.overcall_required_equity == self.facts.overcall_required_equity,
            r.shove_range@ == (if self.facts.players_behind == 0 {
                Seq::empty()
            } else {
                self.shove_results@
            }),
            r.call_range@ == self.call_results@,
            r.overcall_range@ == self.overcall_results@,
    {
        SeatRanges {
            seat_index: self.facts.seat_index,
            players_behind: self.facts.players_behind,
            posted_amount: self.facts.posted_amount,
            call_required_equity: self.facts.call_required_equity,
            overcall_required_equity: self.facts.overcall_required_equity,
            shove_range: if self.facts.players_behind == 0 {
                Vec::new()
            } else {
                self.shove_results
            },
            call_range: self.call_results,
            overcall_range: self.overcall_results,
        }
    }
}

/// Every answer brings an analysis one question closer to its end, and changes none of the facts that
/// questions go by.
pub proof fn answers_come_to_an_end<S: Scalar>(analysis: SeatAnalysis<S>, shares: Seq<S>)
    requires
        analysis.wf(),
        analysis.step !is Done,
    ensures
        analysis@.answered(shares).questions_left() == analysis@.questions_left() - 1,
        analysis@.answered(shares).facts == analysis@.facts,
{
}

/// The analyses of all seats, in their order.
pub fn analyze_seats<S: Scalar>(config: &ShortStackConfig) -> (r: Vec<SeatAnalysis<S>>)
    requires
        config.fits(),
    ensures
        r@.len() == config.alive_players,
        forall|i: int|
            0 <= i < r@.len() ==> (#[trigger] r@[i])@ == opened::<S>(*config, i as u8) && r@[i].wf(),
{
    let mut seats: Vec<SeatAnalysis<S>> = Vec::new();
    for seat in 0..config.alive_players
        invariant
            config.fits(),
            seats@.len() == seat,
            forall|i: int|
                0 <= i < seats@.len() ==> (#[trigger] seats@[i])@ == opened::<S>(*config, i as u8)
                    && seats@[i].wf(),
    {
        seats.push(SeatAnalysis::open(config, seat));
    }
    seats
}

/// The share that a call of a stack needs by the pot alone: the stack by the pot with both stacks in it.
pub open spec fn single_call_spec<S: Scalar>(config: ShortStackConfig) -> S {
    let dead_pot = dead_pot_spec(config.level, config.alive_players);
    S::from_u32_spec(config.stack).over_spec(
        S::from_u32_spec((dead_pot + capped(2 * config.stack)) as u32),
    )
}

/// The share that an overcall of a stack needs by the pot alone: the stack by the pot with three stacks in
/// it.
pub open spec fn single_overcall_spec<S: Scalar>(config: ShortStackConfig) -> S {
    let dead_pot = dead_pot_spec(config.level, config.alive_players);
    S::from_u32_spec(config.stack).over_spec(
        S::from_u32_spec((dead_pot + capped(3 * config.stack)) as u32),
    )
}

/// How many big blinds a stack is.
pub open spec fn stack_in_blinds_spec<S: Scalar>(config: ShortStackConfig) -> S {
    S::from_u32_spec(config.stack).over_spec(S::from_u32_spec(config.level.big_blind))
}

/// The report of all seats, with the shares that a call and an overcall need by the pot alone.
pub fn short_stack_report<S: Scalar>(config: &ShortStackConfig, seats: Vec<SeatRanges<S>>) -> (r:
    ShortStackReport<S>)
    requires
        config.fits(),
    ensures
        r.dead_pot == dead_pot_spec(config.level, config.alive_players),
        r.stack_in_big_blinds == S::from_u32_spec(config.stack).over_spec(
            S::from_u32_spec(config.level.big_blind),
        ),
        r.stack_in_big_blinds == stack_in_blinds_spec::<S>(*config),
        r.orbit_cost == orbit_cost_spec(config.level, config.alive_players),
        r.single_call_required_equity == S::from_u32_spec(config.stack).over_spec(
            S::from_u32_spec((r.dead_pot + capped(2 * config.stack)) as u32),
        ),
        r.single_call_required_equity == single_call_spec::<S>(*config),
        r.overcall_required_equity == S::from_u32_spec(config.stack).over_spec(
            S::from_u32_spec((r.dead_pot + capped(3 * config.stack)) as u32),
        ),
        r.overcall_required_equity == single_overcall_spec::<S>(*config),
        r.seats == seats,
{
    let dead_pot: u32 = config.level.small_blind + config.level.big_blind + capped_product(
        config.level.per_player_ante,
        config.alive_players as u32,
    );
    let stack: S = S::from_u32(config.stack);
    ShortStackReport {
        dead_pot,
        stack_in_big_blinds: stack.over(S::from_u32(config.level.big_blind)),
        orbit_cost: orbit_cost(config.level, config.alive_players),
        single_call_required_equity: stack.over(
            S::from_u32(dead_pot + capped_product(config.stack, 2)),
        ),
        overcall_required_equity: stack.over(
            S::from_u32(dead_pot + capped_product(config.stack, 3)),
        ),
        seats,
    }
}

} // verus!
