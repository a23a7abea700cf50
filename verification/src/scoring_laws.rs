//! What ranks and ratings are worth together.
use vstd::prelude::*;
use crate::scoring::{
    rank_points_spec, rating_adjustment_spec, ratings_sum, score_spec, truncated_div,
};

verus! {

/// What the points of the first `n` ranks come to.
pub open spec fn points_below(n: nat) -> int
    decreases n,
{
    if n == 0 {
        0
    } else {
        points_below((n - 1) as nat) + rank_points_spec(n as int)
    }
}

/// What the better ranks get, the worse ranks give.
pub proof fn points_add_up_to_nothing()
    ensures
        points_below(6) == 0,
{
    reveal_with_fuel(points_below, 7);
}

/// A quotient that is rounded toward zero has the sign of the dividend and is short of it by less than a divisor.
pub proof fn truncated_quotients_fall_short(value: int, divisor: int)
    requires
        divisor > 0,
    ensures
        value >= 0 ==> 0 <= truncated_div(value, divisor) * divisor <= value < truncated_div(
            value,
            divisor,
        ) * divisor + divisor,
        truncated_div(-value, divisor) == -truncated_div(value, divisor),
{
    vstd::arithmetic::div_mod::lemma_fundamental_div_mod(value, divisor);
    let (q, rest) = (value / divisor, value % divisor);
    assert(divisor * q == q * divisor) by (nonlinear_arith);
    assert(value >= 0 ==> q * divisor >= 0) by (nonlinear_arith)
        requires
            value == divisor * q + rest,
            0 <= rest < divisor,
    ;
    if value == 0 {
        assert(q == 0) by (nonlinear_arith)
            requires
                value == divisor * q + rest,
                0 <= rest < divisor,
                value == 0,
        ;
    }
}

/// Among opponents of one rating, a rank is worth a point more for every forty that they are rated above the own
/// rating, and a point less for every forty below.
pub proof fn stronger_opponents_are_worth_more(rank: u8, self_rating: i32, ratings: Seq<i32>, rating: i32)
    requires
        ratings.len() > 0,
        forall|i: int| 0 <= i < ratings.len() ==> #[trigger] ratings[i] == rating,
    ensures
        ({
            let more = rating_adjustment_spec(self_rating, ratings);
            &&& rating >= self_rating ==> 40 * more <= rating - self_rating < 40 * more + 40
            &&& rating <= self_rating ==> -40 * more <= self_rating - rating < -40 * more + 40
            &&& rank > 3 ==> score_spec(rank, self_rating, ratings) == rank_points_spec(rank as int) + more
            &&& rank_points_spec(rank as int) + more > 0 ==> score_spec(rank, self_rating, ratings)
                == rank_points_spec(rank as int) + more
        }),
{
    lemma_same_ratings(ratings, rating);
    let n = ratings.len() as int;
    let sum = ratings_sum(ratings);
    let r = rating as int;
    assert(truncated_div(sum, n) == r) by {
        if r >= 0 {
            assert(sum >= 0) by (nonlinear_arith)
                requires
                    sum == r * n,
                    r >= 0,
                    n > 0,
            ;
            vstd::arithmetic::div_mod::lemma_fundamental_div_mod_converse(sum, n, r, 0);
        } else {
            assert(sum < 0 && -sum == (-r) * n) by (nonlinear_arith)
                requires
                    sum == r * n,
                    r < 0,
                    n > 0,
            ;
            vstd::arithmetic::div_mod::lemma_fundamental_div_mod_converse(-sum, n, -r, 0);
        }
    }
    truncated_quotients_fall_short(r - self_rating, 40);
    truncated_quotients_fall_short(self_rating - r, 40);
}

proof fn lemma_same_ratings(ratings: Seq<i32>, rating: i32)
    requires
        forall|i: int| 0 <= i < ratings.len() ==> #[trigger] ratings[i] == rating,
    ensures
        ratings_sum(ratings) == rating * ratings.len(),
    decreases ratings.len(),
{
    let r = rating as int;
    let n = ratings.len() as int;
    if n > 0 {
        assert forall|i: int| 0 <= i < ratings.drop_last().len() implies #[trigger] ratings.drop_last()[i]
            == rating by {
            assert(ratings[i] == rating);
        }
        lemma_same_ratings(ratings.drop_last(), rating);
        assert(r * n == r * (n - 1) + r) by (nonlinear_arith);
    } else {
        assert(r * 0 == 0);
    }
}

/// A higher own rating is never worth more, and a better rated opponent never less.
pub proof fn ratings_count_against_the_own(
    rank: u8,
    low: i32,
    high: i32,
    ratings: Seq<i32>,
    opponent: int,
    better: i32,
)
    requires
        ratings.len() > 0,
        low <= high,
        0 <= opponent < ratings.len(),
        ratings[opponent] <= better,
    ensures
        score_spec(rank, high, ratings) <= score_spec(rank, low, ratings),
        score_spec(rank, low, ratings) <= score_spec(rank, low, ratings.update(opponent, better)),
{
    let n = ratings.len() as int;
    let mean = truncated_div(ratings_sum(ratings), n);
    lemma_truncated_order(mean - high, mean - low, 40);
    let after = ratings.update(opponent, better);
    lemma_one_rating(ratings, opponent, better);
    lemma_truncated_order(ratings_sum(ratings), ratings_sum(after), n);
    lemma_truncated_order(mean - low, truncated_div(ratings_sum(after), n) - low, 40);
}

proof fn lemma_one_rating(ratings: Seq<i32>, place: int, better: i32)
    requires
        0 <= place < ratings.len(),
    ensures
        ratings_sum(ratings.update(place, better)) == ratings_sum(ratings) + better - ratings[place],
    decreases ratings.len(),
{
    let after = ratings.update(place, better);
    if place == ratings.len() - 1 {
        assert(after.drop_last() =~= ratings.drop_last());
    } else {
        assert(after.drop_last() =~= ratings.drop_last().update(place, better));
        lemma_one_rating(ratings.drop_last(), place, better);
    }
}

proof fn lemma_truncated_order(a: int, b: int, divisor: int)
    requires
        a <= b,
        divisor > 0,
    ensures
        truncated_div(a, divisor) <= truncated_div(b, divisor),
{
    if a >= 0 {
        vstd::arithmetic::div_mod::lemma_div_is_ordered(a, b, divisor);
    } else {
        vstd::arithmetic::div_mod::lemma_div_pos_is_pos(-a, divisor);
        if b < 0 {
            vstd::arithmetic::div_mod::lemma_div_is_ordered(-b, -a, divisor);
        } else {
            vstd::arithmetic::div_mod::lemma_div_pos_is_pos(b, divisor);
        }
    }
}

} // verus!
