//! What one player of a hand wins the other loses, over numbers that are not rounded.
use vstd::prelude::*;
use crate::balance::{
    earned, earned_from, earnings, lost_to, pairs_cancel, products_agree, sum_below_times,
    times_laws,
};
use crate::boards::{board_classes, completions};
use crate::cards::{all_different, deck_without, mask_of, mask_of_contains, Card};
use crate::cfr_math::zeros_spec;
use crate::deals::{deck_without_facts, pairs, pairs_are_all};
use crate::fold_weights::{are_unlike, collide, is_blocked, met_part, total_weight, total_weights_add_up};
use crate::isomorphism::{
    identity_is_symmetry, is_symmetry, made_of, symmetries, symmetries_facts, target_place,
    SuitPermutation,
};
use crate::plain_deals::{
    blocked_hands_meet_no_board, boards_stand_alone, boards_to_come, clear_boards,
    hands_meet_as_many_boards, is_clear, plain_codes,
};
use crate::range::{combo_fits, ComboWeight};
use crate::real_setup::RealSetup;
use crate::real_terminal::{board_values, live_on, places_on, RefView, TerminalMode, ValuesView};
use crate::scalar::{ExactScalar, Scalar};
use crate::sums::{negate_twice, plus_swap, sum_below, sum_below_zero};
use crate::terminal_board::PreparedTerminalBoard;
use crate::terminal_cache::{
    are_indices, board_added, code_finds_permutation, code_mapped, compact_values, finished, live_places, live_reach, members_gathered,
    targets_below, ComboPermutations, PreparedComboTarget, SideSums,
};
use crate::terminal_laws::{all_side_values, boards_are_zero_sum, sparse_matches_prefix_blocker};
use crate::tree::Player;

verus! {

/// Whether what both players' hands earn adds up to nothing.
pub open spec fn is_zero_sum<S: Scalar>(
    values: ValuesView<S>,
    oop_reach: Seq<S>,
    ip_reach: Seq<S>,
) -> bool {
    earned(oop_reach, values.oop).plus_spec(earned(ip_reach, values.ip)) == S::zero_spec()
}

/// What a hand earns from a hand of the opponent's that folds, or loses if the player folds.
spec fn fold_share<S: Scalar>(
    own: Seq<ComboWeight<S>>,
    opponents: Seq<ComboWeight<S>>,
    board: Seq<Card>,
    factor: S,
) -> spec_fn(int, int) -> S {
    |i: int, j: int|
        if is_blocked(own[i], board) || is_blocked(opponents[j], board) || collide(
            own[i],
            opponents[j],
        ) {
            S::zero_spec()
        } else {
            factor
        }
}

proof fn lemma_fold_side<S: ExactScalar>(
    own: Seq<ComboWeight<S>>,
    opponents: Seq<ComboWeight<S>>,
    reach: Seq<S>,
    same: Option<usize>,
    board: Seq<Card>,
    factor: S,
    shares: spec_fn(int) -> S,
    i: int,
)
    requires
        products_agree::<S>(),
        0 <= i < own.len(),
        opponents.len() == reach.len() <= usize::MAX,
        own[i].first != own[i].second,
        forall|j: int| 0 <= j < opponents.len() ==> (#[trigger] opponents[j]).first != opponents[j].second,
        are_unlike(opponents),
        same == crate::fold_weights::last_match(
            opponents,
            own[i].first,
            own[i].second,
            opponents.len(),
        ),
        forall|j: int|
            0 <= j < opponents.len() ==> #[trigger] shares(j) == fold_share(
                own,
                opponents,
                board,
                factor,
            )(i, j).times_spec(reach[j]),
    ensures
        factor.times_spec(total_weight(own[i], opponents, reach, same, board)) == sum_below(
            shares,
            opponents.len(),
        ),
{
    let zero = S::zero_spec();
    S::times_unit(factor);
    if is_blocked(own[i], board) {
        assert forall|j: int| 0 <= j < opponents.len() implies #[trigger] shares(j) == zero by {
            S::times_unit(reach[j]);
            times_laws(zero, reach[j], zero);
        }
        sum_below_zero(shares, opponents.len());
    } else {
        total_weights_add_up(own[i], opponents, reach, board);
        let met = met_part(own[i], opponents, reach, board);
        assert forall|j: int| 0 <= j < opponents.len() implies #[trigger] shares(j)
            == factor.times_spec(met(j)) by {
            S::times_unit(reach[j]);
            times_laws(zero, reach[j], zero);
        }
        sum_below_times(met, shares, factor, opponents.len());
    }
}

impl<S: ExactScalar> RealSetup<S> {
    /// What one player wins by a fold the other loses, if no hand stands in a range twice.
    pub proof fn folds_are_zero_sum(
        self,
        board: Seq<Card>,
        pot: u32,
        folding: Player,
        oop_reach: Seq<S>,
        ip_reach: Seq<S>,
    )
        requires
            products_agree::<S>(),
            self.wf(),
            are_unlike(self.oop()),
            are_unlike(self.ip()),
            oop_reach.len() == self.oop().len(),
            ip_reach.len() == self.ip().len(),
        ensures
            is_zero_sum(
                self.fold_spec(board, pot, folding, oop_reach, ip_reach),
                oop_reach,
                ip_reach,
            ),
    {
        let (oop, ip) = (self.oop(), self.ip());
        let chips = S::from_u32_spec(pot);
        let values = self.fold_spec(board, pot, folding, oop_reach, ip_reach);
        let factor = if folding == Player::Oop {
            chips.negate_spec()
        } else {
            chips
        };
        let back = factor.negate_spec();
        negate_twice(chips);
        let share = fold_share(oop, ip, board, factor);
        assert forall|i: int| 0 <= i < oop.len() implies #[trigger] values.oop[i] == sum_below(
            earned_from(share, ip_reach, i),
            ip.len(),
        ) by {
            lemma_fold_side(
                oop,
                ip,
                ip_reach,
                self.oop_same_ip_combo_indices@[i],
                board,
                factor,
                earned_from(share, ip_reach, i),
                i,
            );
        }
        assert forall|j: int| 0 <= j < ip.len() implies #[trigger] values.ip[j] == sum_below(
            lost_to(share, oop_reach, j),
            oop.len(),
        ) by {
            let lost = lost_to(share, oop_reach, j);
            negate_twice(S::zero_spec());
            assert forall|i: int| 0 <= i < oop.len() implies #[trigger] lost(i) == fold_share(
                ip,
                oop,
                board,
                back,
            )(j, i).times_spec(oop_reach[i]) by {}
            lemma_fold_side(
                ip,
                oop,
                oop_reach,
                self.ip_same_oop_combo_indices@[j],
                board,
                back,
                lost,
                j,
            );
        }
        pairs_cancel(share, oop_reach, ip_reach, values.oop, values.ip);
    }
}

/// The targets of a range on a board stand at different places of both.
proof fn lemma_targets(indices: Seq<Option<usize>>, count: nat, n: nat)
    requires
        n <= indices.len() <= usize::MAX,
        count <= 0xffff,
        forall|i: int| 0 <= i < indices.len() ==> (#[trigger] indices[i] matches Some(b) ==> b < count),
        forall|i: int, j: int|
            0 <= i < j < indices.len() && #[trigger] indices[i] is Some ==> indices[i]
                != #[trigger] indices[j],
    ensures
        forall|k: int|
            0 <= k < targets_below(indices, n).len() ==> {
                let target = #[trigger] targets_below(indices, n)[k];
                &&& target.range_index < n
                &&& target.board_index < count
                &&& indices[target.range_index as int] == Some(target.board_index as usize)
            },
        forall|k: int, l: int|
            0 <= k < l < targets_below(indices, n).len() ==> (#[trigger] targets_below(
                indices,
                n,
            )[k]).board_index != (#[trigger] targets_below(indices, n)[l]).board_index,
    decreases n,
{
    if n > 0 {
        lemma_targets(indices, count, (n - 1) as nat);
        let front = targets_below(indices, (n - 1) as nat);
        let whole = targets_below(indices, n);
        if let Some(b) = indices[n - 1] {
            assert(b < count);
            assert forall|k: int, l: int| 0 <= k < l < whole.len() implies (
            #[trigger] whole[k]).board_index != (#[trigger] whole[l]).board_index by {
                assert(whole[k] == front[k]);
                if l == front.len() {
                    let r = front[k].range_index as int;
                    assert(indices[r] is Some && indices[r] != indices[n - 1]);
                } else {
                    assert(whole[l] == front[l]);
                }
            }
            assert forall|k: int| 0 <= k < whole.len() implies {
                let target = #[trigger] whole[k];
                &&& target.range_index < n
                &&& target.board_index < count
                &&& indices[target.range_index as int] == Some(target.board_index as usize)
            } by {
                if k < front.len() {
                    assert(whole[k] == front[k]);
                }
            }
        }
    }
}

/// The hands that are reached stand on the list of places, once.
proof fn lemma_places<S: ExactScalar>(
    targets: Seq<PreparedComboTarget>,
    reach: Seq<S>,
    count: nat,
    n: nat,
)
    requires
        n <= targets.len(),
        count <= 0xffff,
        forall|k: int| 0 <= k < targets.len() ==> (#[trigger] targets[k]).board_index < count,
        forall|k: int, l: int|
            0 <= k < l < targets.len() ==> (#[trigger] targets[k]).board_index != (
            #[trigger] targets[l]).board_index,
    ensures
        live_reach(targets, reach, count, n).len() == count,
        forall|p: int|
            0 <= p < live_places(targets, reach, count, n).len() ==> stands_below(
                targets,
                #[trigger] live_places(targets, reach, count, n)[p],
                n,
            ),
        forall|p: int, q: int|
            0 <= p < q < live_places(targets, reach, count, n).len() ==> #[trigger] live_places(
                targets,
                reach,
                count,
                n,
            )[p] != #[trigger] live_places(targets, reach, count, n)[q],
        forall|v: int|
            0 <= v < count && #[trigger] live_reach(targets, reach, count, n)[v] != S::zero_spec()
                ==> live_places(targets, reach, count, n).contains(v as u16) && stands_below(
                targets,
                v as u16,
                n,
            ),
    decreases n,
{
    if n > 0 {
        let m = (n - 1) as nat;
        lemma_places(targets, reach, count, m);
        let target = targets[n - 1];
        let value = reach[target.range_index as int];
        let b = target.board_index as int;
        let (live, places) = (live_reach(targets, reach, count, m), live_places(targets, reach, count, m));
        let (live_now, places_now) = (
            live_reach(targets, reach, count, n),
            live_places(targets, reach, count, n),
        );
        S::same_is_equality(value, S::zero_spec());
        S::same_is_equality(live[b], S::zero_spec());
        assert(!stands_below(targets, b as u16, m)) by {
            if stands_below(targets, b as u16, m) {
                let k = choose|k: int| 0 <= k < m && (#[trigger] targets[k]).board_index == b as u16;
                assert(targets[k].board_index != targets[n - 1].board_index);
            }
        }
        assert(targets[n - 1].board_index == b as u16);
        assert(stands_below(targets, b as u16, n));
        assert(live[b] == S::zero_spec());
        assert forall|v: u16| stands_below(targets, v, m) implies stands_below(targets, v, n) by {
            let k = choose|k: int| 0 <= k < m && (#[trigger] targets[k]).board_index == v;
            assert(targets[k].board_index == v);
        }
        if value != S::zero_spec() {
            assert(places_now == places.push(target.board_index));
            assert(places_now[places.len() as int] == b as u16);
            assert forall|p: int| 0 <= p < places_now.len() implies stands_below(
                targets,
                #[trigger] places_now[p],
                n,
            ) by {
                if p < places.len() {
                    assert(places_now[p] == places[p]);
                }
            }
            assert forall|p: int, q: int| 0 <= p < q < places_now.len() implies #[trigger] places_now[p]
                != #[trigger] places_now[q] by {
                assert(places_now[p] == places[p]);
                assert(stands_below(targets, places[p], m));
                if q < places.len() {
                    assert(places_now[q] == places[q]);
                }
            }
            assert forall|v: int|
                0 <= v < count && #[trigger] live_now[v] != S::zero_spec() implies places_now.contains(
                v as u16,
            ) && stands_below(targets, v as u16, n) by {
                if v != b {
                    assert(live_now[v] == live[v]);
                    let p = choose|p: int| 0 <= p < places.len() && places[p] == v as u16;
                    assert(places_now[p] == v as u16);
                }
            }
        }
    }
}

/// Whether a place is that of one of the first `n` targets.
spec fn stands_below(targets: Seq<PreparedComboTarget>, place: u16, n: nat) -> bool {
    exists|k: int| 0 <= k < n && (#[trigger] targets[k]).board_index == place
}

/// One more hand at a place earns more there.
proof fn lemma_more_earned<S: ExactScalar>(
    reach: Seq<S>,
    values: Seq<S>,
    place: int,
    more: S,
    n: nat,
)
    requires
        products_agree::<S>(),
        0 <= place < reach.len(),
        n <= reach.len(),
    ensures
        sum_below(earnings(reach.update(place, reach[place].plus_spec(more)), values), n) == (if place
            < n {
            sum_below(earnings(reach, values), n).plus_spec(more.times_spec(values[place]))
        } else {
            sum_below(earnings(reach, values), n)
        }),
    decreases n,
{
    if n > 0 {
        lemma_more_earned(reach, values, place, more, (n - 1) as nat);
        let front = sum_below(earnings(reach, values), (n - 1) as nat);
        let added = more.times_spec(values[place]);
        if place == n - 1 {
            let own = reach[place].times_spec(values[place]);
            times_laws(values[place], reach[place], more);
            times_laws(reach[place], values[place], more);
            times_laws(more, values[place], more);
            times_laws(reach[place].plus_spec(more), values[place], more);
            S::plus_associates(front, own, added);
        } else if place < n {
            let last = reach[n - 1].times_spec(values[n - 1]);
            S::plus_associates(front, added, last);
            S::plus_commutes(added, last);
            S::plus_associates(front, last, added);
        }
    }
}

/// What is reached by the first `k` targets does not depend on a target behind them.
proof fn lemma_reach_in_front<S: Scalar>(
    targets: Seq<PreparedComboTarget>,
    last: PreparedComboTarget,
    reach: Seq<S>,
    count: nat,
    k: nat,
)
    requires
        k <= targets.len(),
    ensures
        live_reach(targets.push(last), reach, count, k) == live_reach(targets, reach, count, k),
    decreases k,
{
    if k > 0 {
        lemma_reach_in_front(targets, last, reach, count, (k - 1) as nat);
        assert(targets.push(last)[k - 1] == targets[k - 1]);
    }
}

/// The values of a range's hands by their places on a board; none for hands that cannot be held.
pub open spec fn placed_values<S: Scalar>(indices: Seq<Option<usize>>, values: Seq<S>) -> Seq<S> {
    Seq::new(
        indices.len(),
        |i: int|
            match indices[i] {
                Some(b) => values[b as int],
                None => S::zero_spec(),
            },
    )
}

/// Hands earn what the hands of the board earn that they stand for.
proof fn lemma_earned_on_board<S: ExactScalar>(
    indices: Seq<Option<usize>>,
    reach: Seq<S>,
    values: Seq<S>,
    count: nat,
    n: nat,
)
    requires
        products_agree::<S>(),
        n <= indices.len() <= usize::MAX,
        count <= 0xffff,
        forall|i: int| 0 <= i < indices.len() ==> (#[trigger] indices[i] matches Some(b) ==> b < count),
    ensures
        ({
            let targets = targets_below(indices, n);
            let live = live_reach(targets, reach, count, targets.len());
            &&& live.len() == count
            &&& sum_below(earnings(reach, placed_values(indices, values)), n) == earned(live, values)
        }),
    decreases n,
{
    let targets = targets_below(indices, n);
    let live = live_reach(targets, reach, count, targets.len());
    let all = placed_values(indices, values);
    if n == 0 {
        let zeros = zeros_spec::<S>(count);
        assert forall|i: int| 0 <= i < count implies #[trigger] earnings(zeros, values)(i)
            == S::zero_spec() by {
            S::times_unit(values[i]);
            times_laws(values[i], S::zero_spec(), S::zero_spec());
        }
        sum_below_zero(earnings(zeros, values), count);
    } else {
        let m = (n - 1) as nat;
        lemma_earned_on_board(indices, reach, values, count, m);
        let front = targets_below(indices, m);
        let before = live_reach(front, reach, count, front.len());
        let r = reach[n - 1];
        S::times_unit(r);
        S::plus_zero(sum_below(earnings(reach, all), m));
        assert(earnings(reach, all)(n - 1) == r.times_spec(all[n - 1]));
        if let Some(b) = indices[n - 1] {
            assert(b < count);
            let target = PreparedComboTarget { range_index: (n - 1) as usize, board_index: b as u16 };
            lemma_reach_in_front(front, target, reach, count, front.len());
            S::same_is_equality(r, S::zero_spec());
            if r == S::zero_spec() {
                S::times_unit(values[b as int]);
                times_laws(values[b as int], r, r);
            } else {
                lemma_more_earned(before, values, b as int, r, count);
            }
        }
    }
}

/// What hands are worth on a prepared board is what the board says, however it is evaluated.
proof fn lemma_compact<S: ExactScalar>(
    prepared: PreparedTerminalBoard,
    indices: Seq<Option<usize>>,
    opponents: Seq<Option<usize>>,
    reach: Seq<S>,
    sparse: bool,
)
    requires
        prepared.wf(),
        prepared.count() <= 0xffff,
        opponents.len() <= usize::MAX,
        forall|i: int|
            0 <= i < indices.len() ==> (#[trigger] indices[i] matches Some(b) ==> b
                < prepared.count()),
        forall|i: int|
            0 <= i < opponents.len() ==> (#[trigger] opponents[i] matches Some(b) ==> b
                < prepared.count()),
        forall|i: int, j: int|
            0 <= i < j < opponents.len() && #[trigger] opponents[i] is Some ==> opponents[i]
                != #[trigger] opponents[j],
    ensures
        ({
            let targets = targets_below(opponents, opponents.len());
            let live = live_reach(targets, reach, prepared.count(), targets.len());
            let places = live_places(targets, reach, prepared.count(), targets.len());
            compact_values(prepared, indices, live, places, sparse) == placed_values(
                indices,
                all_side_values(&prepared, live),
            )
        }),
{
    let count = prepared.count();
    let targets = targets_below(opponents, opponents.len());
    let live = live_reach(targets, reach, count, targets.len());
    let places = live_places(targets, reach, count, targets.len());
    lemma_targets(opponents, count, opponents.len());
    lemma_places(targets, reach, count, targets.len());
    let left = compact_values(prepared, indices, live, places, sparse);
    let right = placed_values(indices, all_side_values(&prepared, live));
    assert forall|i: int| 0 <= i < left.len() implies left[i] == right[i] by {
        if let Some(b) = indices[i] {
            assert(b < count);
            if sparse {
                assert forall|p: int| 0 <= p < places.len() implies (#[trigger] places[p]) < count by {
                    assert(stands_below(targets, places[p], targets.len()));
                }
                sparse_matches_prefix_blocker(&prepared, live, places, b as int);
            }
        }
    }
    assert(left =~= right);
}

/// Values with others added to them, each scaled, earn the sum.
pub proof fn added_values_earn_the_sum<S: ExactScalar>(
    reach: Seq<S>,
    before: Seq<S>,
    more: Seq<S>,
    factor: S,
    after: Seq<S>,
    n: nat,
)
    requires
        products_agree::<S>(),
        forall|s: int|
            0 <= s < n ==> #[trigger] after[s] == before[s].plus_spec(more[s].times_spec(factor)),
    ensures
        sum_below(earnings(reach, after), n) == sum_below(earnings(reach, before), n).plus_spec(
            sum_below(earnings(reach, more), n).times_spec(factor),
        ),
    decreases n,
{
    let zero = S::zero_spec();
    if n == 0 {
        S::times_unit(factor);
        times_laws(factor, zero, zero);
        S::plus_zero(zero);
    } else {
        let m = (n - 1) as nat;
        added_values_earn_the_sum(reach, before, more, factor, after, m);
        let r = reach[n - 1];
        let (a, b) = (before[n - 1], more[n - 1]);
        let (x, y) = (
            sum_below(earnings(reach, before), m),
            sum_below(earnings(reach, more), m),
        );
        assert(after[n - 1] == a.plus_spec(b.times_spec(factor)));
        times_laws(r, a, b.times_spec(factor));
        times_laws(r, b, factor);
        plus_swap(x, y.times_spec(factor), r.times_spec(a), r.times_spec(b).times_spec(factor));
        times_laws(factor, y, r.times_spec(b));
        times_laws(y, factor, zero);
        times_laws(r.times_spec(b), factor, zero);
        times_laws(y.plus_spec(r.times_spec(b)), factor, zero);
    }
}

/// Two sides that each add scaled values that cancel out still cancel out.
pub proof fn scaled_sums_cancel<S: ExactScalar>(a: S, b: S, c: S, d: S, factor: S)
    requires
        products_agree::<S>(),
        a.plus_spec(b) == S::zero_spec(),
        c.plus_spec(d) == S::zero_spec(),
    ensures
        a.plus_spec(c.times_spec(factor)).plus_spec(b.plus_spec(d.times_spec(factor)))
            == S::zero_spec(),
        c.times_spec(factor).plus_spec(d.times_spec(factor)) == S::zero_spec(),
{
    let zero = S::zero_spec();
    plus_swap(a, c.times_spec(factor), b, d.times_spec(factor));
    times_laws(factor, c, d);
    times_laws(c, factor, zero);
    times_laws(d, factor, zero);
    S::times_unit(factor);
    S::plus_zero(zero);
}

/// One, so many times over.
pub open spec fn ones<S: Scalar>(n: nat) -> S
    decreases n,
{
    if n == 0 {
        S::zero_spec()
    } else {
        ones::<S>((n - 1) as nat).plus_spec(S::one_spec())
    }
}

/// Two sums of values cancel out, and hands that were counted nowhere have no value.
spec fn sums_cancel<S: Scalar>(
    oop_reach: Seq<S>,
    ip_reach: Seq<S>,
    oop: SideSums<S>,
    ip: SideSums<S>,
) -> bool {
    &&& oop.values.len() == oop_reach.len()
    &&& oop.counts.len() == oop_reach.len()
    &&& ip.values.len() == ip_reach.len()
    &&& ip.counts.len() == ip_reach.len()
    &&& earned(oop_reach, oop.values).plus_spec(earned(ip_reach, ip.values)) == S::zero_spec()
}

/// Whether a hand was counted so often, and has no value if it was not counted.
spec fn is_counted<S: Scalar>(sums: SideSums<S>, times: nat, s: int) -> bool {
    &&& sums.counts[s] == ones::<S>(times)
    &&& times == 0 ==> sums.values[s] == S::zero_spec()
}

/// Whether each hand was counted so often, and has no value if it was not counted.
spec fn are_counted<S: Scalar>(sums: SideSums<S>, held: spec_fn(int) -> nat) -> bool {
    forall|s: int| 0 <= s < sums.values.len() ==> #[trigger] is_counted(sums, held(s), s)
}

impl<S: ExactScalar> RealSetup<S> {
    /// Whether a permutation leaves every hand where it is.
    pub open spec fn moves_nothing(self, code: u8) -> bool {
        &&& self.maps_code(code)
        &&& forall|s: int|
            0 <= s < self.oop().len() ==> #[trigger] self.combo_permutations.map_of(
                Player::Oop,
                code,
            )[s] == s
        &&& forall|s: int|
            0 <= s < self.ip().len() ==> #[trigger] self.combo_permutations.map_of(
                Player::Ip,
                code,
            )[s] == s
    }

    proof fn lemma_indices_differ(self, c: int, player: Player)
        requires
            self.wf(),
            are_unlike(self.oop()),
            are_unlike(self.ip()),
            0 <= c < self.terminal_cache@.len(),
        ensures
            ({
                let cache = self.terminal_cache@[c];
                let indices = cache.indices(player);
                &&& cache.fits(self.oop(), self.ip())
                &&& cache.prepared.wf()
                &&& cache.prepared.count() <= 0xffff
                &&& indices.len() == self.combos(player) <= usize::MAX
                &&& forall|i: int|
                    0 <= i < indices.len() ==> (#[trigger] indices[i] matches Some(b) ==> b
                        < cache.prepared.count())
                &&& forall|i: int, j: int|
                    0 <= i < j < indices.len() && #[trigger] indices[i] is Some ==> indices[i]
                        != #[trigger] indices[j]
            }),
    {
        let cache = self.terminal_cache@[c];
        assert(cache.fits(self.oop(), self.ip()));
        cache.prepared.wf_facts();
        let indices = cache.indices(player);
        let combos = match player {
            Player::Oop => self.oop(),
            Player::Ip => self.ip(),
        };
        assert(are_indices(cache.prepared, combos, indices));
        assert forall|i: int, j: int|
            0 <= i < j < indices.len() && #[trigger] indices[i] is Some implies indices[i]
            != #[trigger] indices[j] by {
            assert(!made_of(combos[i], combos[j].first, combos[j].second));
        }
    }

    /// On a finished board both players' hands together earn nothing, and hands that cannot be held
    /// have no value.
    proof fn lemma_board(self, c: int, oop_reach: Seq<S>, ip_reach: Seq<S>, limit: usize)
        requires
            products_agree::<S>(),
            self.wf(),
            are_unlike(self.oop()),
            are_unlike(self.ip()),
            0 <= c < self.terminal_cache@.len(),
            oop_reach.len() == self.oop().len(),
            ip_reach.len() == self.ip().len(),
        ensures
            ({
                let cache = self.terminal_cache@[c];
                let mode = TerminalMode::Traverse;
                let oop = board_values(cache, Player::Oop, oop_reach, ip_reach, limit, mode);
                let ip = board_values(cache, Player::Ip, oop_reach, ip_reach, limit, mode);
                &&& oop is Some && ip is Some
                &&& earned(oop_reach, oop->Some_0).plus_spec(earned(ip_reach, ip->Some_0))
                    == S::zero_spec()
                &&& forall|s: int|
                    0 <= s < self.oop().len() && cache.indices(Player::Oop)[s] is None
                        ==> #[trigger] oop->Some_0[s] == S::zero_spec()
                &&& forall|s: int|
                    0 <= s < self.ip().len() && cache.indices(Player::Ip)[s] is None
                        ==> #[trigger] ip->Some_0[s] == S::zero_spec()
            }),
    {
        let cache = self.terminal_cache@[c];
        let prepared = cache.prepared;
        let count = prepared.count();
        self.lemma_indices_differ(c, Player::Oop);
        self.lemma_indices_differ(c, Player::Ip);
        let (oop, ip) = (cache.indices(Player::Oop), cache.indices(Player::Ip));
        let oop_live = live_on(cache, Player::Oop, oop_reach);
        let ip_live = live_on(cache, Player::Ip, ip_reach);
        let sparse = places_on(cache, Player::Oop, oop_reach).len() <= limit && places_on(
            cache,
            Player::Ip,
            ip_reach,
        ).len() <= limit;
        lemma_compact(prepared, oop, ip, ip_reach, sparse);
        lemma_compact(prepared, ip, oop, oop_reach, sparse);
        let oop_values = all_side_values(&prepared, ip_live);
        let ip_values = all_side_values(&prepared, oop_live);
        lemma_earned_on_board(oop, oop_reach, oop_values, count, oop.len());
        lemma_earned_on_board(ip, ip_reach, ip_values, count, ip.len());
        boards_are_zero_sum(&prepared, oop_live, ip_live);
    }

    /// One more board keeps sums that cancel out, and counts.
    proof fn lemma_board_added(
        self,
        c: int,
        oop_reach: Seq<S>,
        ip_reach: Seq<S>,
        limit: usize,
        oop: SideSums<S>,
        ip: SideSums<S>,
        oop_held: spec_fn(int) -> nat,
        ip_held: spec_fn(int) -> nat,
        code: u8,
        pot: S,
    )
        requires
            products_agree::<S>(),
            self.wf(),
            are_unlike(self.oop()),
            are_unlike(self.ip()),
            0 <= c < self.terminal_cache@.len(),
            oop_reach.len() == self.oop().len(),
            ip_reach.len() == self.ip().len(),
            sums_cancel(oop_reach, ip_reach, oop, ip),
            are_counted(oop, oop_held),
            are_counted(ip, ip_held),
            self.moves_nothing(code),
        ensures
            ({
                let cache = self.terminal_cache@[c];
                let mode = TerminalMode::Traverse;
                let oop_now = board_added(
                    oop,
                    board_values(cache, Player::Oop, oop_reach, ip_reach, limit, mode),
                    cache.indices(Player::Oop),
                    self.combo_permutations.map_of(Player::Oop, code),
                    pot,
                );
                let ip_now = board_added(
                    ip,
                    board_values(cache, Player::Ip, oop_reach, ip_reach, limit, mode),
                    cache.indices(Player::Ip),
                    self.combo_permutations.map_of(Player::Ip, code),
                    pot,
                );
                &&& sums_cancel(oop_reach, ip_reach, oop_now, ip_now)
                &&& are_counted(oop_now, self.held_more(c, Player::Oop, oop_held))
                &&& are_counted(ip_now, self.held_more(c, Player::Ip, ip_held))
            }),
    {
        let cache = self.terminal_cache@[c];
        let mode = TerminalMode::Traverse;
        let oop_values = board_values(cache, Player::Oop, oop_reach, ip_reach, limit, mode);
        let ip_values = board_values(cache, Player::Ip, oop_reach, ip_reach, limit, mode);
        self.lemma_board(c, oop_reach, ip_reach, limit);
        let oop_map = self.combo_permutations.map_of(Player::Oop, code);
        let ip_map = self.combo_permutations.map_of(Player::Ip, code);
        let oop_now = board_added(oop, oop_values, cache.indices(Player::Oop), oop_map, pot);
        let ip_now = board_added(ip, ip_values, cache.indices(Player::Ip), ip_map, pot);
        S::times_unit(pot);
        times_laws(pot, S::zero_spec(), pot);
        assert forall|s: int| 0 <= s < oop_reach.len() implies #[trigger] oop_now.values[s]
            == oop.values[s].plus_spec(oop_values->Some_0[s].times_spec(pot)) by {
            assert(oop_map[s] == s);
            S::plus_zero(oop.values[s]);
        }
        assert forall|s: int| 0 <= s < ip_reach.len() implies #[trigger] ip_now.values[s]
            == ip.values[s].plus_spec(ip_values->Some_0[s].times_spec(pot)) by {
            assert(ip_map[s] == s);
            S::plus_zero(ip.values[s]);
        }
        added_values_earn_the_sum(
            oop_reach,
            oop.values,
            oop_values->Some_0,
            pot,
            oop_now.values,
            oop_reach.len(),
        );
        added_values_earn_the_sum(ip_reach, ip.values, ip_values->Some_0, pot, ip_now.values, ip_reach.len());
        scaled_sums_cancel(
            earned(oop_reach, oop.values),
            earned(ip_reach, ip.values),
            earned(oop_reach, oop_values->Some_0),
            earned(ip_reach, ip_values->Some_0),
            pot,
        );
        let oop_more = self.held_more(c, Player::Oop, oop_held);
        assert forall|s: int| 0 <= s < oop_now.values.len() implies #[trigger] is_counted(
            oop_now,
            oop_more(s),
            s,
        ) by {
            assert(oop_map[s] == s);
            assert(is_counted(oop, oop_held(s), s));
        }
        let ip_more = self.held_more(c, Player::Ip, ip_held);
        assert forall|s: int| 0 <= s < ip_now.values.len() implies #[trigger] is_counted(
            ip_now,
            ip_more(s),
            s,
        ) by {
            assert(ip_map[s] == s);
            assert(is_counted(ip, ip_held(s), s));
        }
    }

    /// On how many boards each hand can be held, one more board counted.
    spec fn held_more(self, c: int, player: Player, held: spec_fn(int) -> nat) -> spec_fn(int) -> nat {
        |s: int|
            if self.terminal_cache@[c].indices(player)[s] is Some {
                held(s) + 1
            } else {
                held(s)
            }
    }
}

/// Counts that agree hand by hand are the same counts.
proof fn lemma_counted_alike<S: Scalar>(
    sums: SideSums<S>,
    held: spec_fn(int) -> nat,
    other: spec_fn(int) -> nat,
)
    requires
        are_counted(sums, held),
        forall|s: int| 0 <= s < sums.values.len() ==> #[trigger] held(s) == other(s),
    ensures
        are_counted(sums, other),
{
    assert forall|s: int| 0 <= s < sums.values.len() implies #[trigger] is_counted(
        sums,
        other(s),
        s,
    ) by {
        assert(is_counted(sums, held(s), s));
        assert(held(s) == other(s));
    }
}

/// What one number of boards makes of values: the share of one board, if there is one.
spec fn board_share<S: Scalar>(boards: nat) -> S {
    if ones::<S>(boards).exceeds_spec(S::zero_spec()) {
        S::one_spec().over_spec(ones::<S>(boards))
    } else {
        S::one_spec()
    }
}

/// If every hand that can be held can be held on as many boards, finishing sums scales them alike.
proof fn lemma_finished<S: ExactScalar>(
    reach: Seq<S>,
    sums: SideSums<S>,
    held: spec_fn(int) -> nat,
    boards: nat,
)
    requires
        products_agree::<S>(),
        sums.values.len() == reach.len(),
        are_counted(sums, held),
        forall|s: int| 0 <= s < reach.len() ==> #[trigger] held(s) == 0 || held(s) == boards,
    ensures
        earned(reach, finished(sums)) == earned(reach, sums.values).times_spec(board_share(boards)),
{
    let share = board_share::<S>(boards);
    let zero = S::zero_spec();
    let after = finished(sums);
    let part = earnings(reach, sums.values);
    assert forall|s: int| 0 <= s < reach.len() implies #[trigger] earnings(reach, after)(s)
        == share.times_spec(part(s)) by {
        let value = sums.values[s];
        assert(is_counted(sums, held(s), s));
        S::times_unit(value);
        times_laws(value, sums.counts[s], zero);
        assert(after[s] == value.times_spec(share)) by {
            if held(s) == 0 {
                S::times_unit(share);
                times_laws(share, zero, zero);
                let inverse = S::one_spec().over_spec(sums.counts[s]);
                S::times_unit(inverse);
                times_laws(inverse, zero, zero);
            }
        }
        times_laws(reach[s], value, share);
        times_laws(reach[s].times_spec(value), share, zero);
    }
    sum_below_times(part, earnings(reach, after), share, reach.len());
    times_laws(share, earned(reach, sums.values), zero);
}

impl<S: ExactScalar> RealSetup<S> {
    /// On how many boards of the first `n` classes a hand can be held.
    pub open spec fn held_on(self, player: Player, refs: Seq<RefView>, s: int, n: nat) -> nat
        decreases n,
    {
        if n == 0 {
            0
        } else {
            self.held_on(player, refs, s, (n - 1) as nat) + if self.terminal_cache@[refs[n
                - 1].cache_index].indices(player)[s] is Some {
                refs[n - 1].codes.len()
            } else {
                0
            }
        }
    }

    /// Whether every hand that can be held on a board to come can be held on as many of them.
    pub open spec fn holds_alike(self, refs: Seq<RefView>, boards: nat) -> bool {
        &&& forall|s: int|
            0 <= s < self.oop().len() ==> {
                let held = #[trigger] self.held_on(Player::Oop, refs, s, refs.len());
                held == 0 || held == boards
            }
        &&& forall|s: int|
            0 <= s < self.ip().len() ==> {
                let held = #[trigger] self.held_on(Player::Ip, refs, s, refs.len());
                held == 0 || held == boards
            }
    }

    /// Whether the permutations of classes move nothing, and their boards are prepared.
    pub open spec fn refs_move_nothing(self, refs: Seq<RefView>) -> bool {
        forall|k: int|
            0 <= k < refs.len() ==> {
                let class = #[trigger] refs[k];
                &&& 0 <= class.cache_index < self.terminal_cache@.len()
                &&& forall|m: int|
                    0 <= m < class.codes.len() ==> self.moves_nothing(#[trigger] class.codes[m])
            }
    }

    /// Gathering the members of a class keeps sums that cancel out, and counts.
    proof fn lemma_members(
        self,
        c: int,
        oop_reach: Seq<S>,
        ip_reach: Seq<S>,
        limit: usize,
        oop: SideSums<S>,
        ip: SideSums<S>,
        oop_held: spec_fn(int) -> nat,
        ip_held: spec_fn(int) -> nat,
        codes: Seq<u8>,
        pot: S,
        n: nat,
    )
        requires
            products_agree::<S>(),
            self.wf(),
            are_unlike(self.oop()),
            are_unlike(self.ip()),
            0 <= c < self.terminal_cache@.len(),
            oop_reach.len() == self.oop().len(),
            ip_reach.len() == self.ip().len(),
            sums_cancel(oop_reach, ip_reach, oop, ip),
            are_counted(oop, oop_held),
            are_counted(ip, ip_held),
            n <= codes.len(),
            forall|m: int| 0 <= m < codes.len() ==> self.moves_nothing(#[trigger] codes[m]),
        ensures
            ({
                let cache = self.terminal_cache@[c];
                let mode = TerminalMode::Traverse;
                let oop_now = members_gathered(
                    oop,
                    board_values(cache, Player::Oop, oop_reach, ip_reach, limit, mode),
                    cache.indices(Player::Oop),
                    self.combo_permutations,
                    Player::Oop,
                    codes,
                    pot,
                    n,
                );
                let ip_now = members_gathered(
                    ip,
                    board_values(cache, Player::Ip, oop_reach, ip_reach, limit, mode),
                    cache.indices(Player::Ip),
                    self.combo_permutations,
                    Player::Ip,
                    codes,
                    pot,
                    n,
                );
                &&& sums_cancel(oop_reach, ip_reach, oop_now, ip_now)
                &&& are_counted(oop_now, self.held_times(c, Player::Oop, oop_held, n))
                &&& are_counted(ip_now, self.held_times(c, Player::Ip, ip_held, n))
            }),
        decreases n,
    {
        let cache = self.terminal_cache@[c];
        let mode = TerminalMode::Traverse;
        let oop_side = board_values(cache, Player::Oop, oop_reach, ip_reach, limit, mode);
        let ip_side = board_values(cache, Player::Ip, oop_reach, ip_reach, limit, mode);
        let oop_times = self.held_times(c, Player::Oop, oop_held, n);
        let ip_times = self.held_times(c, Player::Ip, ip_held, n);
        if n == 0 {
            lemma_counted_alike(oop, oop_held, oop_times);
            lemma_counted_alike(ip, ip_held, ip_times);
        } else {
            let m = (n - 1) as nat;
            self.lemma_members(
                c,
                oop_reach,
                ip_reach,
                limit,
                oop,
                ip,
                oop_held,
                ip_held,
                codes,
                pot,
                m,
            );
            let oop_front = members_gathered(
                oop,
                oop_side,
                cache.indices(Player::Oop),
                self.combo_permutations,
                Player::Oop,
                codes,
                pot,
                m,
            );
            let ip_front = members_gathered(
                ip,
                ip_side,
                cache.indices(Player::Ip),
                self.combo_permutations,
                Player::Ip,
                codes,
                pot,
                m,
            );
            let oop_before = self.held_times(c, Player::Oop, oop_held, m);
            let ip_before = self.held_times(c, Player::Ip, ip_held, m);
            assert(self.moves_nothing(codes[n - 1]));
            self.lemma_board_added(
                c,
                oop_reach,
                ip_reach,
                limit,
                oop_front,
                ip_front,
                oop_before,
                ip_before,
                codes[n - 1],
                pot,
            );
            lemma_counted_alike(
                members_gathered(
                    oop,
                    oop_side,
                    cache.indices(Player::Oop),
                    self.combo_permutations,
                    Player::Oop,
                    codes,
                    pot,
                    n,
                ),
                self.held_more(c, Player::Oop, oop_before),
                oop_times,
            );
            lemma_counted_alike(
                members_gathered(
                    ip,
                    ip_side,
                    cache.indices(Player::Ip),
                    self.combo_permutations,
                    Player::Ip,
                    codes,
                    pot,
                    n,
                ),
                self.held_more(c, Player::Ip, ip_before),
                ip_times,
            );
        }
    }

    /// On how many boards each hand can be held, one board counted so many times more.
    spec fn held_times(
        self,
        c: int,
        player: Player,
        held: spec_fn(int) -> nat,
        times: nat,
    ) -> spec_fn(int) -> nat {
        |s: int|
            held(s) + if self.terminal_cache@[c].indices(player)[s] is Some {
                times
            } else {
                0
            }
    }

    /// On how many boards of the first `n` classes each hand can be held.
    spec fn all_held_on(self, player: Player, refs: Seq<RefView>, n: nat) -> spec_fn(int) -> nat {
        |s: int| self.held_on(player, refs, s, n)
    }

    /// Sums over classes cancel out, and count the boards on which a hand can be held.
    proof fn lemma_gathered(
        self,
        refs: Seq<RefView>,
        oop_reach: Seq<S>,
        ip_reach: Seq<S>,
        pot: u32,
        limit: usize,
        n: nat,
    )
        requires
            products_agree::<S>(),
            self.wf(),
            are_unlike(self.oop()),
            are_unlike(self.ip()),
            oop_reach.len() == self.oop().len(),
            ip_reach.len() == self.ip().len(),
            self.refs_move_nothing(refs),
            n <= refs.len(),
        ensures
            ({
                let mode = TerminalMode::Traverse;
                let oop = self.refs_gathered(
                    Player::Oop,
                    refs,
                    oop_reach,
                    ip_reach,
                    pot,
                    limit,
                    mode,
                    n,
                );
                let ip = self.refs_gathered(
                    Player::Ip,
                    refs,
                    oop_reach,
                    ip_reach,
                    pot,
                    limit,
                    mode,
                    n,
                );
                &&& sums_cancel(oop_reach, ip_reach, oop, ip)
                &&& are_counted(oop, self.all_held_on(Player::Oop, refs, n))
                &&& are_counted(ip, self.all_held_on(Player::Ip, refs, n))
            }),
        decreases n,
    {
        let mode = TerminalMode::Traverse;
        let oop = self.refs_gathered(Player::Oop, refs, oop_reach, ip_reach, pot, limit, mode, n);
        let ip = self.refs_gathered(Player::Ip, refs, oop_reach, ip_reach, pot, limit, mode, n);
        let oop_held = self.all_held_on(Player::Oop, refs, n);
        let ip_held = self.all_held_on(Player::Ip, refs, n);
        if n == 0 {
            worthless_hands_earn_nothing(oop_reach);
            worthless_hands_earn_nothing(ip_reach);
            S::plus_zero(S::zero_spec());
        } else {
            let m = (n - 1) as nat;
            self.lemma_gathered(refs, oop_reach, ip_reach, pot, limit, m);
            let class = refs[n - 1];
            let oop_before = self.all_held_on(Player::Oop, refs, m);
            let ip_before = self.all_held_on(Player::Ip, refs, m);
            self.lemma_members(
                class.cache_index,
                oop_reach,
                ip_reach,
                limit,
                self.refs_gathered(Player::Oop, refs, oop_reach, ip_reach, pot, limit, mode, m),
                self.refs_gathered(Player::Ip, refs, oop_reach, ip_reach, pot, limit, mode, m),
                oop_before,
                ip_before,
                class.codes,
                S::from_u32_spec(pot),
                class.codes.len(),
            );
            lemma_counted_alike(
                oop,
                self.held_times(class.cache_index, Player::Oop, oop_before, class.codes.len()),
                oop_held,
            );
            lemma_counted_alike(
                ip,
                self.held_times(class.cache_index, Player::Ip, ip_before, class.codes.len()),
                ip_held,
            );
        }
    }

    /// What one player wins at a showdown the other loses, if permutations move nothing and hands that
    /// can be held can be held on as many of the boards to come.
    proof fn lemma_showdown(
        self,
        refs: Seq<RefView>,
        oop_reach: Seq<S>,
        ip_reach: Seq<S>,
        pot: u32,
        limit: usize,
        boards: nat,
    )
        requires
            products_agree::<S>(),
            self.wf(),
            are_unlike(self.oop()),
            are_unlike(self.ip()),
            oop_reach.len() == self.oop().len(),
            ip_reach.len() == self.ip().len(),
            self.refs_move_nothing(refs),
            self.holds_alike(refs, boards),
        ensures
            is_zero_sum(
                self.showdown_spec(refs, oop_reach, ip_reach, pot, limit, TerminalMode::Traverse),
                oop_reach,
                ip_reach,
            ),
    {
        let mode = TerminalMode::Traverse;
        let n = refs.len();
        let oop = self.refs_gathered(Player::Oop, refs, oop_reach, ip_reach, pot, limit, mode, n);
        let ip = self.refs_gathered(Player::Ip, refs, oop_reach, ip_reach, pot, limit, mode, n);
        self.lemma_gathered(refs, oop_reach, ip_reach, pot, limit, n);
        lemma_finished(oop_reach, oop, self.all_held_on(Player::Oop, refs, n), boards);
        lemma_finished(ip_reach, ip, self.all_held_on(Player::Ip, refs, n), boards);
        let zero = S::zero_spec();
        S::plus_zero(zero);
        scaled_sums_cancel(
            zero,
            zero,
            earned(oop_reach, oop.values),
            earned(ip_reach, ip.values),
            board_share::<S>(boards),
        );
    }
}

/// Hands that have no value earn nothing.
pub proof fn worthless_hands_earn_nothing<S: ExactScalar>(reach: Seq<S>)
    ensures
        earned(reach, zeros_spec::<S>(reach.len())) == S::zero_spec(),
{
    let zeros = zeros_spec::<S>(reach.len());
    assert forall|h: int| 0 <= h < reach.len() implies #[trigger] earnings(reach, zeros)(h)
        == S::zero_spec() by {
        S::times_unit(reach[h]);
    }
    sum_below_zero(earnings(reach, zeros), reach.len());
}

impl<S: ExactScalar> RealSetup<S> {
    /// Whether the only symmetry of any known board is the one that changes nothing.
    pub open spec fn is_plain(self) -> bool {
        forall|board: Seq<Card>, permutation: SuitPermutation|
            permutation.wf() && self.knows(board) && #[trigger] is_symmetry(
                board,
                self.oop(),
                self.ip(),
                permutation,
            ) ==> permutation == SuitPermutation::identity_spec()
    }

    /// The permutation that changes nothing moves nothing.
    pub proof fn identity_moves_nothing(self)
        requires
            self.wf(),
        ensures
            self.moves_nothing(SuitPermutation::identity_spec().code_spec() as u8),
    {
        let id = SuitPermutation::identity_spec();
        let board = self.flop_board@;
        identity_is_symmetry(board, self.oop(), self.ip());
        symmetries_facts(board, self.oop(), self.ip(), 256);
        let list = symmetries(board, self.oop(), self.ip());
        let i = choose|i: int| 0 <= i < list.len() && list[i] == id;
        assert(list[i].wf() && is_symmetry(board, self.oop(), self.ip(), list[i]));
        self.symmetry_is_mapped(board, id);
        code_finds_permutation(id);
        let code = id.code_spec() as int;
        assert(code_mapped(self.oop(), self.ip(), self.combo_permutations.maps@[code], code));
        let list = self.combo_permutations.maps@[code]->Some_0;
        assert forall|s: int| 0 <= s < self.oop().len() implies #[trigger] self.combo_permutations.map_of(
            Player::Oop,
            code as u8,
        )[s] == s by {
            assert(list.oop_source_to_target@[s] == target_place(self.oop(), id, s));
        }
        assert forall|s: int| 0 <= s < self.ip().len() implies #[trigger] self.combo_permutations.map_of(
            Player::Ip,
            code as u8,
        )[s] == s by {
            assert(list.ip_source_to_target@[s] == target_place(self.ip(), id, s));
        }
    }

    /// The cards of a player's hand.
    spec fn hand(self, player: Player, s: int) -> ComboWeight<S> {
        match player {
            Player::Oop => self.oop()[s],
            Player::Ip => self.ip()[s],
        }
    }

    /// A hand can be held on a prepared board if it holds no card of it.
    proof fn lemma_held(self, c: int, player: Player, s: int)
        requires
            self.wf(),
            0 <= c < self.terminal_cache@.len(),
            0 <= s < self.combos(player),
        ensures
            self.terminal_cache@[c].indices(player)[s] is Some == is_clear(
                self.terminal_cache@[c].board@,
                self.hand(player, s).first,
                self.hand(player, s).second,
            ),
    {
        let cache = self.terminal_cache@[c];
        assert(cache.fits(self.oop(), self.ip()));
        let combos = match player {
            Player::Oop => self.oop(),
            Player::Ip => self.ip(),
        };
        let indices = cache.indices(player);
        assert(are_indices(cache.prepared, combos, indices));
        let board = cache.board@;
        let deck = deck_without(board);
        deck_without_facts(board);
        pairs_are_all(deck.len());
        let all = pairs(deck.len());
        let (first, second) = (combos[s].first, combos[s].second);
        assert(combo_fits(combos[s]));
        match indices[s] {
            Some(b) => {
                let combo = cache.prepared.combos_spec()[b as int];
                assert(combo.is_pair(first, second));
                assert(all[b as int].0 < all[b as int].1);
                assert(combo.first == deck[all[b as int].0 as int]);
                assert(combo.second == deck[all[b as int].1 as int]);
            },
            None => {
                if is_clear(board, first, second) {
                    assert(deck.contains(first) && deck.contains(second));
                    let i = choose|i: int| 0 <= i < deck.len() && deck[i] == first;
                    let j = choose|j: int| 0 <= j < deck.len() && deck[j] == second;
                    let (lo, hi) = if i < j {
                        (i, j)
                    } else {
                        (j, i)
                    };
                    assert(all.contains((lo as usize, hi as usize)));
                    let k = choose|k: int|
                        0 <= k < all.len() && all[k] == (lo as usize, hi as usize);
                    assert(cache.prepared.combos_spec()[k].is_pair(first, second));
                }
            },
        }
    }

    /// A hand can be held on as many boards to come as it holds no card of.
    proof fn lemma_held_on(self, player: Player, board: Seq<Card>, s: int, n: nat)
        requires
            self.wf(),
            self.knows(board),
            all_different(board),
            board.len() == 5 || self.is_plain(),
            0 <= s < self.combos(player),
            n <= completions(board).len(),
        ensures
            self.held_on(player, self.refs(board), s, n) == clear_boards(
                completions(board),
                self.hand(player, s).first,
                self.hand(player, s).second,
                n,
            ),
        decreases n,
    {
        if n > 0 {
            self.lemma_held_on(player, board, s, (n - 1) as nat);
            self.lemma_refs(board);
            let class = self.refs(board)[n - 1];
            let hand = self.hand(player, s);
            self.lemma_held(class.cache_index, player, s);
            let prepared = self.terminal_cache@[class.cache_index].board@;
            mask_of_contains(prepared, hand.first);
            mask_of_contains(prepared, hand.second);
            mask_of_contains(completions(board)[n - 1], hand.first);
            mask_of_contains(completions(board)[n - 1], hand.second);
        }
    }

    /// Every class of boards to come holds one of them, and is prepared.
    proof fn lemma_refs(self, board: Seq<Card>)
        requires
            self.wf(),
            self.knows(board),
            all_different(board),
            board.len() == 5 || self.is_plain(),
        ensures
            self.refs(board).len() == completions(board).len(),
            forall|k: int|
                0 <= k < completions(board).len() ==> {
                    let class = #[trigger] self.refs(board)[k];
                    &&& class.codes == plain_codes()
                    &&& 0 <= class.cache_index < self.terminal_cache@.len()
                    &&& mask_of(self.terminal_cache@[class.cache_index].board@) == mask_of(
                        completions(board)[k],
                    )
                },
    {
        let (oop, ip) = (self.oop(), self.ip());
        self.knows_starts_with_flop(board);
        boards_stand_alone(board, oop, ip);
        let deck = deck_without(board);
        deck_without_facts(board);
        assert forall|k: int| 0 <= k < completions(board).len() implies {
            let class = #[trigger] self.refs(board)[k];
            &&& class.codes == plain_codes()
            &&& 0 <= class.cache_index < self.terminal_cache@.len()
            &&& mask_of(self.terminal_cache@[class.cache_index].board@) == mask_of(
                completions(board)[k],
            )
        } by {
            assert(board_classes(board, oop, ip)[k].codes == plain_codes());
            let whole = completions(board)[k];
            assert(whole.len() == 5 && all_different(whole)) by {
                if board.len() == 3 {
                    pairs_are_all(deck.len());
                    let (i, j) = pairs(deck.len())[k];
                    assert(deck[i as int].id() < deck[j as int].id());
                    assert(!board.contains(deck[i as int]) && !board.contains(deck[j as int]));
                } else if board.len() == 4 {
                    assert(!board.contains(deck[k]));
                }
            }
            assert(whole.take(3) =~= self.flop_board@) by {
                assert forall|i: int| 0 <= i < 3 implies whole[i] == self.flop_board@[i] by {
                    assert(board.take(3)[i] == board[i]);
                }
            }
            self.finished_is_cached(whole);
        }
    }

    /// What one player wins at a showdown the other loses: on a finished board, and on any board if no
    /// symmetry makes two boards alike.
    pub proof fn showdowns_are_zero_sum(
        self,
        board: Seq<Card>,
        oop_reach: Seq<S>,
        ip_reach: Seq<S>,
        pot: u32,
        limit: usize,
    )
        requires
            products_agree::<S>(),
            self.wf(),
            are_unlike(self.oop()),
            are_unlike(self.ip()),
            self.knows(board),
            all_different(board),
            board.len() == 5 || self.is_plain(),
            oop_reach.len() == self.oop().len(),
            ip_reach.len() == self.ip().len(),
        ensures
            is_zero_sum(
                self.showdown_spec(
                    self.refs(board),
                    oop_reach,
                    ip_reach,
                    pot,
                    limit,
                    TerminalMode::Traverse,
                ),
                oop_reach,
                ip_reach,
            ),
    {
        let refs = self.refs(board);
        self.knows_starts_with_flop(board);
        self.lemma_refs(board);
        self.identity_moves_nothing();
        let n = completions(board).len();
        assert forall|s: int| 0 <= s < self.oop().len() implies {
            let held = #[trigger] self.held_on(Player::Oop, refs, s, refs.len());
            held == 0 || held == boards_to_come(board.len())
        } by {
            self.lemma_meets(Player::Oop, board, s);
        }
        assert forall|s: int| 0 <= s < self.ip().len() implies {
            let held = #[trigger] self.held_on(Player::Ip, refs, s, refs.len());
            held == 0 || held == boards_to_come(board.len())
        } by {
            self.lemma_meets(Player::Ip, board, s);
        }
        assert(self.refs_move_nothing(refs)) by {
            assert forall|k: int| 0 <= k < refs.len() implies {
                let class = #[trigger] refs[k];
                &&& 0 <= class.cache_index < self.terminal_cache@.len()
                &&& forall|m: int|
                    0 <= m < class.codes.len() ==> self.moves_nothing(#[trigger] class.codes[m])
            } by {
                assert(refs[k].codes == plain_codes());
            }
        }
        self.lemma_showdown(refs, oop_reach, ip_reach, pot, limit, boards_to_come(board.len()));
    }

    /// A showdown has a value for each hand.
    pub proof fn showdowns_have_all_hands(
        self,
        refs: Seq<RefView>,
        oop_reach: Seq<S>,
        ip_reach: Seq<S>,
        pot: u32,
        limit: usize,
    )
        ensures
            self.showdown_spec(
                refs,
                oop_reach,
                ip_reach,
                pot,
                limit,
                TerminalMode::Traverse,
            ).sized(self.oop().len(), self.ip().len()),
    {
        self.lemma_gathered_hands(Player::Oop, refs, oop_reach, ip_reach, pot, limit, refs.len());
        self.lemma_gathered_hands(Player::Ip, refs, oop_reach, ip_reach, pot, limit, refs.len());
    }

    proof fn lemma_gathered_hands(
        self,
        player: Player,
        refs: Seq<RefView>,
        oop_reach: Seq<S>,
        ip_reach: Seq<S>,
        pot: u32,
        limit: usize,
        n: nat,
    )
        ensures
            self.refs_gathered(
                player,
                refs,
                oop_reach,
                ip_reach,
                pot,
                limit,
                TerminalMode::Traverse,
                n,
            ).values.len() == self.combos(player),
        decreases n,
    {
        if n > 0 {
            self.lemma_gathered_hands(
                player,
                refs,
                oop_reach,
                ip_reach,
                pot,
                limit,
                (n - 1) as nat,
            );
            let class = refs[n - 1];
            let cache = self.terminal_cache@[class.cache_index];
            lemma_members_hands(
                self.refs_gathered(
                    player,
                    refs,
                    oop_reach,
                    ip_reach,
                    pot,
                    limit,
                    TerminalMode::Traverse,
                    (n - 1) as nat,
                ),
                board_values(cache, player, oop_reach, ip_reach, limit, TerminalMode::Traverse),
                cache.indices(player),
                self.combo_permutations,
                player,
                class.codes,
                S::from_u32_spec(pot),
                class.codes.len(),
            );
        }
    }

    proof fn lemma_meets(self, player: Player, board: Seq<Card>, s: int)
        requires
            self.wf(),
            self.knows(board),
            all_different(board),
            board.len() == 5 || self.is_plain(),
            0 <= s < self.combos(player),
        ensures
            ({
                let refs = self.refs(board);
                let held = self.held_on(player, refs, s, refs.len());
                held == 0 || held == boards_to_come(board.len())
            }),
    {
        let n = completions(board).len();
        let hand = self.hand(player, s);
        self.knows_starts_with_flop(board);
        self.lemma_refs(board);
        self.lemma_held_on(player, board, s, n);
        assert(combo_fits(hand));
        if is_clear(board, hand.first, hand.second) {
            hands_meet_as_many_boards(board, hand.first, hand.second);
        } else {
            blocked_hands_meet_no_board(board, hand.first, hand.second, n);
        }
    }
}

proof fn lemma_members_hands<S: Scalar>(
    sums: SideSums<S>,
    side: Option<Seq<S>>,
    indices: Seq<Option<usize>>,
    permutations: ComboPermutations,
    player: Player,
    codes: Seq<u8>,
    pot: S,
    n: nat,
)
    ensures
        members_gathered(sums, side, indices, permutations, player, codes, pot, n).values.len()
            == sums.values.len(),
    decreases n,
{
    if n > 0 {
        lemma_members_hands(sums, side, indices, permutations, player, codes, pot, (n - 1) as nat);
    }
}

} // verus!
