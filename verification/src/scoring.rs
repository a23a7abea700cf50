//! Points a six-player game awards.
use vstd::prelude::*;

verus! {

/// Why no score can be given.
#[derive(Clone, Copy, Debug, PartialEq, Eq, Structural)]
pub enum ScoringError {
    InvalidRank { rank: u8 },
    NotEnoughOpponentRatings,
}

/// How many players take part.
pub const PLAYER_COUNT: usize = 6;

/// The points of a finishing rank, counted from one.
pub open spec fn rank_points_spec(rank: int) -> int {
    if rank == 1 {
        40
    } else if rank == 2 {
        15
    } else if rank == 3 {
        3
    } else if rank == 4 {
        0
    } else if rank == 5 {
        -18
    } else {
        -40
    }
}

/// The sum of ratings.
pub open spec fn ratings_sum(ratings: Seq<i32>) -> int
    decreases ratings.len(),
{
    if ratings.len() == 0 {
        0
    } else {
        ratings_sum(ratings.drop_last()) + ratings.last()
    }
}

/// Division that rounds toward zero, by a positive divisor.
pub open spec fn truncated_div(value: int, divisor: int) -> int {
    if value >= 0 {
        value / divisor
    } else {
        -((-value) / divisor)
    }
}

/// Every partial sum of the ratings, and the distance of their average to the own rating, fits the
/// machine type.
pub open spec fn ratings_fit(self_rating: i32, ratings: Seq<i32>) -> bool {
    &&& ratings.len() <= i32::MAX
    &&& forall|n: int|
        0 <= n <= ratings.len() ==> i32::MIN <= #[trigger] ratings_sum(ratings.take(n)) <= i32::MAX
    &&& i32::MIN <= truncated_div(ratings_sum(ratings), ratings.len() as int) - self_rating
        <= i32::MAX
}

/// What a rating adds to the points of a rank.
pub open spec fn rating_adjustment_spec(self_rating: i32, ratings: Seq<i32>) -> int {
    truncated_div(truncated_div(ratings_sum(ratings), ratings.len() as int) - self_rating, 40)
}

/// The points of a finishing rank, counted from one.
pub fn rank_points(rank: u8) -> (r: Result<i32, ScoringError>)
    ensures
        r == (if 1 <= rank <= 6 {
            Ok::<i32, ScoringError>(rank_points_spec(rank as int) as i32)
        } else {
            Err(ScoringError::InvalidRank { rank })
        }),
{
    if rank == 1 {
        Ok(40)
    } else if rank == 2 {
        Ok(15)
    } else if rank == 3 {
        Ok(3)
    } else if rank == 4 {
        Ok(0)
    } else if rank == 5 {
        Ok(-18)
    } else if rank == 6 {
        Ok(-40)
    } else {
        Err(ScoringError::InvalidRank { rank })
    }
}

fn truncated_div_i64(value: i64, divisor: i64) -> (r: i64)
    requires
        divisor > 0,
        -0x2_0000_0000 <= value <= 0x2_0000_0000,
    ensures
        r == truncated_div(value as int, divisor as int),
        -0x2_0000_0000 <= r <= 0x2_0000_0000,
{
    proof {
        let magnitude: int = if value >= 0 { value as int } else { -value as int };
        vstd::arithmetic::div_mod::lemma_div_is_ordered_by_denominator(magnitude, 1, divisor as int);
        vstd::arithmetic::div_mod::lemma_div_pos_is_pos(magnitude, divisor as int);
    }
    if value >= 0 {
        value / divisor
    } else {
        -((-value) / divisor)
    }
}

/// What a rating adds to the points of a rank: the distance of the opponents' average rating to the
/// own one, by forty, rounded toward zero.
pub fn rating_adjustment(self_rating: i32, opponent_ratings: &[i32]) -> (r: Result<
    i32,
    ScoringError,
>)
    requires
        opponent_ratings@.len() > 0 ==> ratings_fit(self_rating, opponent_ratings@),
    ensures
        r == (if opponent_ratings@.len() == 0 {
            Err::<i32, ScoringError>(ScoringError::NotEnoughOpponentRatings)
        } else {
            Ok(rating_adjustment_spec(self_rating, opponent_ratings@) as i32)
        }),
        r is Ok ==> -0x1000_0000 <= r->Ok_0 <= 0x1000_0000 && r->Ok_0 == rating_adjustment_spec(
            self_rating,
            opponent_ratings@,
        ),
{
    if opponent_ratings.len() == 0 {
        return Err(ScoringError::NotEnoughOpponentRatings);
    }
    let mut sum: i32 = 0;
    for i in 0..opponent_ratings.len()
        invariant
            ratings_fit(self_rating, opponent_ratings@),
            sum == ratings_sum(opponent_ratings@.take(i as int)),
    {
        proof {
            assert(opponent_ratings@.take(i + 1).drop_last() =~= opponent_ratings@.take(i as int));
            assert(i32::MIN <= ratings_sum(opponent_ratings@.take(i + 1)) <= i32::MAX);
        }
        sum = sum + opponent_ratings[i];
    }
    proof {
        assert(opponent_ratings@.take(opponent_ratings@.len() as int) =~= opponent_ratings@);
    }
    let average_others: i64 = truncated_div_i64(sum as i64, opponent_ratings.len() as i64);
    let gap: i64 = average_others - self_rating as i64;
    let adjustment: i64 = truncated_div_i64(gap, 40);
    Ok(adjustment as i32)
}

/// The score of a finishing rank; the first three never score less than one.
pub open spec fn score_spec(rank: u8, self_rating: i32, ratings: Seq<i32>) -> int {
    let raw = rank_points_spec(rank as int) + rating_adjustment_spec(self_rating, ratings);
    if rank <= 3 && raw <= 0 {
        1
    } else {
        raw
    }
}

/// The score of a finishing rank among opponents of the given ratings.
pub fn score(rank: u8, self_rating: i32, opponent_ratings: &[i32]) -> (r: Result<i32, ScoringError>)
    requires
        opponent_ratings@.len() > 0 ==> ratings_fit(self_rating, opponent_ratings@),
    ensures
        r == (if !(1 <= rank <= 6) {
            Err::<i32, ScoringError>(ScoringError::InvalidRank { rank })
        } else if opponent_ratings@.len() == 0 {
            Err(ScoringError::NotEnoughOpponentRatings)
        } else {
            Ok(score_spec(rank, self_rating, opponent_ratings@) as i32)
        }),
        r is Ok ==> r->Ok_0 == score_spec(rank, self_rating, opponent_ratings@),
{
    let points: i32 = match rank_points(rank) {
        Ok(points) => points,
        Err(error) => {
            return Err(error);
        },
    };
    let adjustment: i32 = match rating_adjustment(self_rating, opponent_ratings) {
        Ok(adjustment) => adjustment,
        Err(error) => {
            return Err(error);
        },
    };
    let raw_score: i32 = points + adjustment;
    if rank <= 3 && raw_score <= 0 {
        Ok(1)
    } else {
        Ok(raw_score)
    }
}

/// A better rank never has fewer points.
pub proof fn rank_points_descend(better: int, worse: int)
    requires
        1 <= better <= worse <= 6,
    ensures
        rank_points_spec(better) >= rank_points_spec(worse),
{
}

/// The first three ranks score at least one, whatever the ratings.
pub proof fn first_three_score_positive(rank: u8, self_rating: i32, ratings: Seq<i32>)
    requires
        1 <= rank <= 3,
    ensures
        score_spec(rank, self_rating, ratings) >= 1,
{
}

} // verus!
