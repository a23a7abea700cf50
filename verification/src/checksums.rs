//! Sums that tell whether two computations gave the same values: each value counts by its place.
use vstd::prelude::*;
use crate::scalar::{ratio, ratio_spec, Scalar};

verus! {

/// The sum of the first `n` values, the first counted `start` times and each later one once more.
pub open spec fn weighed_sum<S: Scalar>(values: Seq<S>, start: nat, n: nat) -> S
    decreases n,
{
    if n == 0 {
        S::zero_spec()
    } else {
        weighed_sum(values, start, (n - 1) as nat).plus_spec(
            values[n - 1].times_spec(
                S::from_count_spec((n - 1) as usize).plus_spec(S::from_count_spec(start as usize)),
            ),
        )
    }
}

/// The sum of the first `n` values, the first counted `start` times and each later one once more.
pub fn weighed_checksum<S: Scalar>(values: &[S], start: usize, n: usize) -> (r: S)
    requires
        n <= values@.len(),
    ensures
        r == weighed_sum(values@, start as nat, n as nat),
{
    let mut sum: S = S::zero();
    for i in 0..n
        invariant
            n <= values@.len(),
            sum == weighed_sum(values@, start as nat, i as nat),
    {
        sum = sum.plus(values[i].times(S::from_count(i).plus(S::from_count(start))));
    }
    sum
}

proof fn lemma_weighed_prefix<S: Scalar>(values: Seq<S>, longer: Seq<S>, start: nat, n: nat)
    requires
        n <= values.len() <= longer.len(),
        forall|i: int| 0 <= i < values.len() ==> values[i] == longer[i],
    ensures
        weighed_sum(values, start, n) == weighed_sum(longer, start, n),
    decreases n,
{
    if n > 0 {
        lemma_weighed_prefix(values, longer, start, (n - 1) as nat);
    }
}

/// The checksum of the values of a board to both players, one after the other.
pub fn output_checksum<S: Scalar>(hero: &[S], villain: &[S]) -> (r: S)
    requires
        hero@.len() + villain@.len() <= usize::MAX,
    ensures
        r == weighed_sum(hero@ + villain@, 1, hero@.len() + villain@.len()),
{
    let mut sum: S = weighed_checksum(hero, 1, hero.len());
    let ghost both = hero@ + villain@;
    proof {
        lemma_weighed_prefix(hero@, both, 1, hero@.len());
    }
    for i in 0..villain.len()
        invariant
            both == hero@ + villain@,
            hero@.len() + villain@.len() <= usize::MAX,
            sum == weighed_sum(both, 1, hero@.len() + i as nat),
    {
        sum = sum.plus(villain[i].times(S::from_count(hero.len() + i).plus(S::from_count(1))));
    }
    sum
}

/// How many values of each player count in the checksum of a board, at most.
pub const TASK_VALUES: usize = 8;

/// The checksum of the first values of a board to both players, times a factor of the board: its key,
/// the place of the node and one.
pub open spec fn task_sum<S: Scalar>(key: usize, node: usize, hero: Seq<S>, villain: Seq<S>) -> S {
    let count = if hero.len() < TASK_VALUES {
        hero.len()
    } else {
        TASK_VALUES as nat
    };
    weighed_sum(hero, 1, count).plus_spec(weighed_sum(villain, 17, count)).times_spec(
        S::from_count_spec(key).plus_spec(S::from_count_spec(node)).plus_spec(S::one_spec()),
    )
}

/// The checksum of the first values of a board to both players, times a factor of the board.
pub fn task_checksum<S: Scalar>(key: usize, node: usize, hero: &[S], villain: &[S]) -> (r: S)
    requires
        hero@.len() == villain@.len(),
    ensures
        r == task_sum(key, node, hero@, villain@),
{
    let count: usize = if hero.len() < TASK_VALUES {
        hero.len()
    } else {
        TASK_VALUES
    };
    weighed_checksum(hero, 1, count).plus(weighed_checksum(villain, 17, count)).times(
        S::from_count(key).plus(S::from_count(node)).plus(S::one()),
    )
}

/// The sum of the first `n` values of a column, each counted by the column and by its place.
pub open spec fn column_sum<S: Scalar>(values: Seq<S>, column: nat, n: nat) -> S
    decreases n,
{
    if n == 0 {
        S::zero_spec()
    } else {
        column_sum(values, column, (n - 1) as nat).plus_spec(
            values[n - 1].times_spec(
                S::from_count_spec(column as usize).plus_spec(S::one_spec()),
            ).times_spec(S::from_count_spec((n - 1) as usize).plus_spec(S::one_spec())),
        )
    }
}

/// The sum of the first `n` columns.
pub open spec fn columns_sum<S: Scalar>(columns: Seq<Vec<S>>, start: nat, n: nat, before: S) -> S
    decreases n,
{
    if n == 0 {
        before
    } else {
        columns_sum(columns, start, (n - 1) as nat, before).plus_spec(
            column_sum(columns[n - 1]@, start + (n - 1) as nat, columns[n - 1]@.len()),
        )
    }
}

/// The sum of the values of a column, each counted by the column and by its place.
fn column_checksum<S: Scalar>(values: &[S], column: usize) -> (r: S)
    ensures
        r == column_sum(values@, column as nat, values@.len()),
{
    let mut sum: S = S::zero();
    for i in 0..values.len()
        invariant
            sum == column_sum(values@, column as nat, i as nat),
    {
        sum = sum.plus(
            values[i].times(S::from_count(column).plus(S::one())).times(
                S::from_count(i).plus(S::one()),
            ),
        );
    }
    sum
}

/// The checksum of columns of values of both players, one player after the other.
pub fn columns_checksum<S: Scalar>(heroes: &Vec<Vec<S>>, villains: &Vec<Vec<S>>) -> (r: S)
    requires
        heroes@.len() + villains@.len() <= usize::MAX,
    ensures
        r == columns_sum(
            villains@,
            heroes@.len(),
            villains@.len(),
            columns_sum(heroes@, 0, heroes@.len(), S::zero_spec()),
        ),
{
    let mut sum: S = S::zero();
    for i in 0..heroes.len()
        invariant
            sum == columns_sum(heroes@, 0, i as nat, S::zero_spec()),
    {
        sum = sum.plus(column_checksum(heroes[i].as_slice(), i));
    }
    let ghost before = sum;
    for i in 0..villains.len()
        invariant
            heroes@.len() + villains@.len() <= usize::MAX,
            sum == columns_sum(villains@, heroes@.len(), i as nat, before),
    {
        sum = sum.plus(column_checksum(villains[i].as_slice(), heroes.len() + i));
    }
    sum
}

/// What one call of a smoke run adds: half of one value of the hero and a quarter of one of the
/// villain, at places that the number of the call gives.
pub fn call_checksum<S: Scalar>(hero: &[S], villain: &[S], task: usize) -> (r: S)
    requires
        hero@.len() == villain@.len(),
        0 < hero@.len(),
        hero@.len() * 37 <= usize::MAX,
    ensures
        ({
            let sample = task as int % hero@.len() as int;
            r == hero@[sample].times_spec(ratio_spec(1, 2)).plus_spec(
                villain@[(sample * 37) % hero@.len() as int].times_spec(ratio_spec(1, 4)),
            )
        }),
{
    let sample: usize = task % hero.len();
    hero[sample].times(ratio(1, 2)).plus(villain[(sample * 37) % hero.len()].times(ratio(1, 4)))
}

/// Columns whose values are all alike have the same checksum.
pub proof fn equal_columns_have_equal_checksums<S: Scalar>(
    left: Seq<Vec<S>>,
    right: Seq<Vec<S>>,
    start: nat,
    n: nat,
    before: S,
)
    requires
        n <= left.len(),
        left.len() == right.len(),
        forall|i: int| 0 <= i < left.len() ==> (#[trigger] left[i])@ == right[i]@,
    ensures
        columns_sum(left, start, n, before) == columns_sum(right, start, n, before),
    decreases n,
{
    if n > 0 {
        equal_columns_have_equal_checksums(left, right, start, (n - 1) as nat, before);
        assert(left[n - 1]@ == right[n - 1]@);
    }
}

} // verus!
