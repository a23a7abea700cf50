//! What hands do by their regrets and sums, in whole numbers of steps: shares of one, in proportion to what
//! is above zero.
use vstd::prelude::*;
use crate::cfr_math::{averaged, matched, positive_sum, row_sum};
use crate::measure::{pair_in_steps, MeasuredScalar};
use crate::node_math::{grid_share, grid_total};
use crate::subgame_nodes::{above_zero, shares, strategy_spec, total};

verus! {

/// A whole number, or zero if it is below.
pub open spec fn above(steps: int) -> int {
    if steps > 0 {
        steps
    } else {
        0
    }
}

/// How many steps the positive ones of the first `n` numbers of a row are together.
pub open spec fn positive_steps<S: MeasuredScalar>(values: Seq<S>, start: int, n: nat) -> int
    decreases n,
{
    if n == 0 {
        0
    } else {
        positive_steps(values, start, (n - 1) as nat) + above(values[start + n - 1].steps())
    }
}

proof fn lemma_positive_grows<S: MeasuredScalar>(values: Seq<S>, start: int, m: nat, n: nat)
    requires
        m <= n,
    ensures
        0 <= positive_steps(values, start, m) <= positive_steps(values, start, n),
        forall|a: int|
            0 <= a < m ==> above((#[trigger] values[start + a]).steps()) <= positive_steps(
                values,
                start,
                m,
            ),
    decreases n, m,
{
    if m < n {
        lemma_positive_grows(values, start, m, (n - 1) as nat);
    } else if m > 0 {
        lemma_positive_grows(values, start, (m - 1) as nat, (m - 1) as nat);
        assert forall|a: int| 0 <= a < m implies above((#[trigger] values[start + a]).steps())
            <= positive_steps(values, start, m) by {
            if a == m - 1 {
                assert(start + a == start + m - 1);
            }
        }
    }
}

proof fn lemma_positive_sum<S: MeasuredScalar>(values: Seq<S>, start: int, n: nat)
    requires
        positive_steps(values, start, n) <= S::limit(),
    ensures
        positive_sum(values, start, n).steps() == positive_steps(values, start, n),
    decreases n,
{
    S::measured_units();
    if n > 0 {
        lemma_positive_grows(values, start, (n - 1) as nat, n);
        lemma_positive_sum(values, start, (n - 1) as nat);
        let value = values[start + n - 1];
        pair_in_steps(value, S::zero_spec());
        pair_in_steps(positive_sum(values, start, (n - 1) as nat), value);
    }
}

/// A share of a whole, rounded down.
proof fn lemma_share_of(part: int, unit: int, whole: int)
    requires
        0 <= part <= whole,
        0 < whole,
        2 <= unit,
    ensures
        0 <= (part * unit) / whole <= unit,
        part == 0 ==> (part * unit) / whole == 0,
        part == whole ==> (part * unit) / whole == unit,
{
    let q = (part * unit) / whole;
    let rest = (part * unit) % whole;
    vstd::arithmetic::div_mod::lemma_fundamental_div_mod(part * unit, whole);
    assert(0 <= q <= unit) by (nonlinear_arith)
        requires
            part * unit == whole * q + rest,
            0 <= rest < whole,
            0 <= part <= whole,
            2 <= unit,
    ;
    assert(part == 0 ==> q == 0) by (nonlinear_arith)
        requires
            part * unit == whole * q + rest,
            0 <= rest < whole,
            2 <= unit,
    ;
    assert(part == whole ==> q == unit) by (nonlinear_arith)
        requires
            part * unit == whole * q + rest,
            0 <= rest < whole,
            2 <= unit,
    ;
}

proof fn lemma_shares_ordered(a: int, b: int, unit: int, whole: int)
    requires
        0 <= a <= b,
        0 < whole,
        2 <= unit,
    ensures
        (a * unit) / whole <= (b * unit) / whole,
{
    assert(a * unit <= b * unit) by (nonlinear_arith)
        requires
            0 <= a <= b,
            2 <= unit,
    ;
    vstd::arithmetic::div_mod::lemma_div_is_ordered(a * unit, b * unit, whole);
}

/// Where some regret is above zero, an action whose regret is not is never taken.
pub(crate) proof fn lemma_matched<S: MeasuredScalar>(
    regrets: Seq<S>,
    start: int,
    actions: int,
    action: int,
    other: int,
)
    requires
        0 <= action < actions,
        0 <= other < actions,
        regrets[start + other].steps() > 0,
        positive_steps(regrets, start, actions as nat) <= S::limit(),
    ensures
        regrets[start + action].steps() <= 0 ==> matched(regrets, start, actions, action).steps() == 0,
{
    S::measured_units();
    lemma_positive_grows(regrets, start, actions as nat, actions as nat);
    lemma_positive_sum(regrets, start, actions as nat);
    let whole = positive_sum(regrets, start, actions as nat);
    assert(above(regrets[start + other].steps()) <= whole.steps());
    S::measured_order(whole, S::zero_spec());
    let cell = regrets[start + action];
    S::measured_order(cell, S::zero_spec());
    let clipped = cell.max_spec(S::zero_spec());
    if cell.steps() <= 0 {
        assert(clipped.steps() == 0);
        assert(0 * S::unit() == 0);
        lemma_share_of(0, S::unit(), whole.steps());
        S::measured_quotient(clipped, whole);
    }
}

/// The steps of numbers.
pub open spec fn steps_of<S: MeasuredScalar>(values: Seq<S>) -> Seq<int> {
    Seq::new(values.len(), |i: int| values[i].steps())
}

/// What is above zero of the first `n` whole numbers, added up.
pub open spec fn total_above(parts: Seq<int>, n: nat) -> int
    decreases n,
{
    if n == 0 {
        0
    } else {
        total_above(parts, (n - 1) as nat) + above(parts[n - 1])
    }
}

/// The first `n` whole numbers added up.
pub open spec fn total_of(parts: Seq<int>, n: nat) -> int
    decreases n,
{
    if n == 0 {
        0
    } else {
        total_of(parts, (n - 1) as nat) + parts[n - 1]
    }
}

/// Whether one is shared out: by what each part is above zero, or alike where no part is above zero. A
/// share is rounded down to a step.
pub open spec fn are_shares(parts: Seq<int>, shares: Seq<int>, unit: int) -> bool {
    let whole = total_above(parts, parts.len());
    &&& shares.len() == parts.len()
    &&& whole > 0 ==> forall|a: int|
        0 <= a < parts.len() ==> (#[trigger] shares[a]) * whole <= above(parts[a]) * unit < (shares[a]
            + 1) * whole
    &&& whole <= 0 ==> forall|a: int|
        0 <= a < parts.len() ==> (#[trigger] shares[a]) * parts.len() <= unit < (shares[a] + 1)
            * parts.len()
}

proof fn lemma_total_above(parts: Seq<int>, m: nat, n: nat)
    requires
        m <= n <= parts.len(),
    ensures
        0 <= total_above(parts, m) <= total_above(parts, n),
        forall|a: int| 0 <= a < m ==> above(#[trigger] parts[a]) <= total_above(parts, m),
    decreases n, m,
{
    if m < n {
        lemma_total_above(parts, m, (n - 1) as nat);
    } else if m > 0 {
        lemma_total_above(parts, (m - 1) as nat, (m - 1) as nat);
    }
}

proof fn lemma_shares_so_far(parts: Seq<int>, shares: Seq<int>, unit: int, n: nat)
    requires
        are_shares(parts, shares, unit),
        total_above(parts, parts.len()) > 0,
        n <= parts.len(),
    ensures
        total_of(shares, n) * total_above(parts, parts.len()) <= total_above(parts, n) * unit
            <= (total_of(shares, n) + n) * total_above(parts, parts.len()),
        n > 0 ==> total_above(parts, n) * unit < (total_of(shares, n) + n) * total_above(
            parts,
            parts.len(),
        ),
    decreases n,
{
    let whole = total_above(parts, parts.len());
    if n == 0 {
        assert(0 * whole == 0 && 0 * unit == 0);
    } else {
        lemma_shares_so_far(parts, shares, unit, (n - 1) as nat);
        let front = total_of(shares, (n - 1) as nat);
        let before = total_above(parts, (n - 1) as nat);
        let share = shares[n - 1];
        let part = above(parts[n - 1]);
        assert(share * whole <= part * unit < (share + 1) * whole);
        assert((front + share) * whole == front * whole + share * whole) by (nonlinear_arith);
        assert((before + part) * unit == before * unit + part * unit) by (nonlinear_arith);
        assert((front + share + n) * whole == (front + (n - 1)) * whole + (share + 1) * whole)
            by (nonlinear_arith);
    }
}

proof fn lemma_even_so_far(shares: Seq<int>, count: int, unit: int, n: nat)
    requires
        n <= shares.len(),
        forall|a: int|
            0 <= a < n ==> (#[trigger] shares[a]) * count <= unit < (shares[a] + 1) * count,
    ensures
        total_of(shares, n) * count <= n * unit <= (total_of(shares, n) + n) * count,
        n > 0 ==> n * unit < (total_of(shares, n) + n) * count,
    decreases n,
{
    if n == 0 {
        assert(0 * count == 0 && 0 * unit == 0);
    } else {
        lemma_even_so_far(shares, count, unit, (n - 1) as nat);
        let front = total_of(shares, (n - 1) as nat);
        let share = shares[n - 1];
        assert((front + share) * count == front * count + share * count) by (nonlinear_arith);
        assert(n * unit == (n - 1) * unit + unit) by (nonlinear_arith);
        assert((front + share + n) * count == (front + (n - 1)) * count + (share + 1) * count)
            by (nonlinear_arith);
    }
}

/// Shares are from zero to one, larger parts have no smaller shares, a part that is not above zero has none
/// if some part is, and all shares together are one, less than a step short for each of them.
pub proof fn shares_make_one(parts: Seq<int>, shares: Seq<int>, unit: int)
    requires
        are_shares(parts, shares, unit),
        parts.len() > 0,
        unit > 0,
    ensures
        unit - parts.len() < total_of(shares, shares.len()) <= unit,
        forall|a: int| 0 <= a < shares.len() ==> 0 <= #[trigger] shares[a] <= unit,
        forall|a: int, b: int|
            0 <= a < parts.len() && 0 <= b < parts.len() && parts[a] <= parts[b]
                ==> #[trigger] shares[a] <= #[trigger] shares[b],
        total_above(parts, parts.len()) > 0 ==> forall|a: int|
            0 <= a < parts.len() && parts[a] <= 0 ==> #[trigger] shares[a] == 0,
{
    let whole = total_above(parts, parts.len());
    let count = parts.len() as int;
    if whole > 0 {
        lemma_shares_so_far(parts, shares, unit, parts.len());
        let sum = total_of(shares, shares.len());
        assert(sum <= unit && unit < sum + count) by (nonlinear_arith)
            requires
                sum * whole <= whole * unit,
                whole * unit < (sum + count) * whole,
                whole > 0,
        ;
    } else {
        lemma_even_so_far(shares, count, unit, parts.len());
        let sum = total_of(shares, shares.len());
        assert(sum <= unit && unit < sum + count) by (nonlinear_arith)
            requires
                sum * count <= count * unit,
                count * unit < (sum + count) * count,
                count > 0,
        ;
    }
    lemma_total_above(parts, parts.len(), parts.len());
    assert forall|a: int| 0 <= a < shares.len() implies 0 <= #[trigger] shares[a] <= unit by {
        let share = shares[a];
        if whole > 0 {
            let part = above(parts[a]);
            assert(part <= whole);
            assert(0 <= share <= unit) by (nonlinear_arith)
                requires
                    share * whole <= part * unit,
                    part * unit < (share + 1) * whole,
                    0 <= part <= whole,
                    unit > 0,
                    whole > 0,
            ;
        } else {
            assert(0 <= share <= unit) by (nonlinear_arith)
                requires
                    share * count <= unit,
                    unit < (share + 1) * count,
                    unit > 0,
                    count > 0,
            ;
        }
    }
    assert forall|a: int, b: int|
        0 <= a < parts.len() && 0 <= b < parts.len() && parts[a] <= parts[b] implies #[trigger] shares[a]
        <= #[trigger] shares[b] by {
        let (x, y) = (shares[a], shares[b]);
        if whole > 0 {
            let (p, q) = (above(parts[a]), above(parts[b]));
            assert(x <= y) by (nonlinear_arith)
                requires
                    x * whole <= p * unit,
                    q * unit < (y + 1) * whole,
                    p <= q,
                    unit > 0,
                    whole > 0,
            ;
        } else {
            assert(x <= y) by (nonlinear_arith)
                requires
                    x * count <= unit,
                    unit < (y + 1) * count,
                    count > 0,
            ;
        }
    }
    if whole > 0 {
        assert forall|a: int| 0 <= a < parts.len() && parts[a] <= 0 implies #[trigger] shares[a] == 0 by {
            let share = shares[a];
            assert(share == 0) by (nonlinear_arith)
                requires
                    share * whole <= 0 * unit,
                    0 * unit < (share + 1) * whole,
                    whole > 0,
            ;
        }
    }
}

/// What a quotient by a positive number is.
pub(crate) proof fn lemma_floor(value: int, divisor: int)
    requires
        divisor > 0,
    ensures
        (value / divisor) * divisor <= value < (value / divisor + 1) * divisor,
{
    vstd::arithmetic::div_mod::lemma_fundamental_div_mod(value, divisor);
    let q = value / divisor;
    let rest = value % divisor;
    assert(q * divisor <= value < (q + 1) * divisor) by (nonlinear_arith)
        requires
            value == divisor * q + rest,
            0 <= rest < divisor,
    ;
}

/// A number's part of a whole.
pub(crate) proof fn lemma_part<S: MeasuredScalar>(cell: S, whole: S)
    requires
        0 <= cell.steps() <= whole.steps(),
        0 < whole.steps(),
    ensures
        cell.over_spec(whole).steps() * whole.steps() <= cell.steps() * S::unit() < (cell.over_spec(
            whole,
        ).steps() + 1) * whole.steps(),
{
    S::measured_units();
    lemma_share_of(cell.steps(), S::unit(), whole.steps());
    lemma_floor(cell.steps() * S::unit(), whole.steps());
    lemma_unit_counts::<S>();
    S::measured_quotient(cell, whole);
}

proof fn lemma_unit_counts<S: MeasuredScalar>()
    ensures
        2 <= S::unit() <= S::limit(),
{
    S::measured_units();
    assert(S::unit() <= S::limit()) by (nonlinear_arith)
        requires
            S::unit() * 0x1_0000_0000 <= S::limit(),
            S::unit() >= 2,
    ;
}

/// One shared out alike.
pub(crate) proof fn lemma_even<S: MeasuredScalar>(count: int)
    requires
        0 < count <= 0x1_0000_0000,
        count <= usize::MAX,
    ensures
        S::from_count_spec(count as usize).steps() == count * S::unit(),
        S::one_spec().over_spec(S::from_count_spec(count as usize)).steps() * count <= S::unit() < (
        S::one_spec().over_spec(S::from_count_spec(count as usize)).steps() + 1) * count,
{
    S::measured_units();
    lemma_unit_counts::<S>();
    let unit = S::unit();
    assert(count * unit <= S::limit()) by (nonlinear_arith)
        requires
            unit * 0x1_0000_0000 <= S::limit(),
            0 < count <= 0x1_0000_0000,
            unit >= 2,
    ;
    S::measured_counts(0, count as usize);
    let all = S::from_count_spec(count as usize);
    assert(0 < unit <= all.steps()) by (nonlinear_arith)
        requires
            all.steps() == count * unit,
            count > 0,
            unit >= 2,
    ;
    lemma_part(S::one_spec(), all);
    let share = S::one_spec().over_spec(all).steps();
    assert(share * count <= unit && unit < (share + 1) * count) by (nonlinear_arith)
        requires
            share * (count * unit) <= unit * unit,
            unit * unit < (share + 1) * (count * unit),
            unit >= 2,
    ;
}

proof fn lemma_row_totals<S: MeasuredScalar>(values: Seq<S>, start: int, n: nat)
    requires
        0 <= start,
        start + n <= values.len(),
    ensures
        positive_steps(values, start, n) == total_above(
            steps_of(values.subrange(start, start + n)),
            n,
        ),
    decreases n,
{
    if n > 0 {
        lemma_row_totals(values, start, (n - 1) as nat);
        let short = steps_of(values.subrange(start, start + n - 1));
        let long = steps_of(values.subrange(start, start + n));
        lemma_same_totals(short, long, (n - 1) as nat);
    }
}

proof fn lemma_same_totals(a: Seq<int>, b: Seq<int>, n: nat)
    requires
        n <= a.len(),
        n <= b.len(),
        forall|i: int| 0 <= i < n ==> #[trigger] a[i] == b[i],
    ensures
        total_above(a, n) == total_above(b, n),
        total_of(a, n) == total_of(b, n),
    decreases n,
{
    if n > 0 {
        lemma_same_totals(a, b, (n - 1) as nat);
    }
}

/// How a hand acts by its regrets: each action by what its regret is above zero of all that is above zero,
/// and all actions alike where no regret is above zero.
pub proof fn regrets_share_out_one<S: MeasuredScalar>(regrets: Seq<S>, start: int, actions: int)
    requires
        0 <= start,
        0 < actions <= 0x1_0000_0000,
        actions <= usize::MAX,
        start + actions <= regrets.len(),
        total_above(steps_of(regrets.subrange(start, start + actions)), actions as nat) <= S::limit(),
    ensures
        are_shares(
            steps_of(regrets.subrange(start, start + actions)),
            Seq::new(
                actions as nat,
                |a: int| matched(regrets, start, actions, a).steps(),
            ),
            S::unit(),
        ),
{
    let parts = steps_of(regrets.subrange(start, start + actions));
    lemma_row_totals(regrets, start, actions as nat);
    lemma_positive_sum(regrets, start, actions as nat);
    lemma_total_above(parts, actions as nat, actions as nat);
    lemma_even::<S>(actions);
    let whole = positive_sum(regrets, start, actions as nat);
    S::measured_units();
    S::measured_order(whole, S::zero_spec());
    assert forall|a: int| 0 <= a < actions && whole.steps() > 0 implies matched(
        regrets,
        start,
        actions,
        a,
    ).steps() * whole.steps() <= above(#[trigger] parts[a]) * S::unit() < (matched(
        regrets,
        start,
        actions,
        a,
    ).steps() + 1) * whole.steps() by {
        assert(parts[a] == regrets[start + a].steps());
        S::measured_order(regrets[start + a], S::zero_spec());
        lemma_part(regrets[start + a].max_spec(S::zero_spec()), whole);
    }
}

proof fn lemma_row_sum<S: MeasuredScalar>(values: Seq<S>, start: int, n: nat)
    requires
        0 <= start,
        start + n <= values.len(),
        forall|i: int| start <= i < start + n ==> (#[trigger] values[i]).steps() >= 0,
        positive_steps(values, start, n) <= S::limit(),
    ensures
        row_sum(values, start, n).steps() == positive_steps(values, start, n),
    decreases n,
{
    S::measured_units();
    if n > 0 {
        lemma_positive_grows(values, start, (n - 1) as nat, n);
        lemma_row_sum(values, start, (n - 1) as nat);
        S::measured_sum(row_sum(values, start, (n - 1) as nat), values[start + n - 1]);
    }
}

/// How a hand acted on average: each action by its sum of all sums, and all actions alike where there is
/// none.
pub proof fn sums_share_out_one<S: MeasuredScalar>(sums: Seq<S>, start: int, actions: int)
    requires
        0 <= start,
        0 < actions <= 0x1_0000_0000,
        actions <= usize::MAX,
        start + actions <= sums.len(),
        forall|i: int| start <= i < start + actions ==> (#[trigger] sums[i]).steps() >= 0,
        total_above(steps_of(sums.subrange(start, start + actions)), actions as nat) <= S::limit(),
    ensures
        are_shares(
            steps_of(sums.subrange(start, start + actions)),
            Seq::new(actions as nat, |a: int| averaged(sums, start, actions, a).steps()),
            S::unit(),
        ),
{
    let parts = steps_of(sums.subrange(start, start + actions));
    lemma_row_totals(sums, start, actions as nat);
    lemma_row_sum(sums, start, actions as nat);
    lemma_total_above(parts, actions as nat, actions as nat);
    lemma_even::<S>(actions);
    let whole = row_sum(sums, start, actions as nat);
    S::measured_units();
    S::measured_order(whole, S::zero_spec());
    assert forall|a: int| 0 <= a < actions && whole.steps() > 0 implies averaged(
        sums,
        start,
        actions,
        a,
    ).steps() * whole.steps() <= above(#[trigger] parts[a]) * S::unit() < (averaged(
        sums,
        start,
        actions,
        a,
    ).steps() + 1) * whole.steps() by {
        assert(parts[a] == sums[start + a].steps());
        lemma_part(sums[start + a], whole);
    }
}

/// What a hand has in each row, in steps.
pub open spec fn column_steps<S: MeasuredScalar>(rows: Seq<Seq<S>>, combo: int) -> Seq<int> {
    Seq::new(rows.len(), |a: int| rows[a][combo].steps())
}

proof fn lemma_grid_total<S: MeasuredScalar>(clipped: bool, rows: Seq<Seq<S>>, combo: int, n: nat)
    requires
        n <= rows.len(),
        !clipped ==> forall|a: int| 0 <= a < rows.len() ==> (#[trigger] rows[a])[combo].steps() >= 0,
        total_above(column_steps(rows, combo), n) <= S::limit(),
    ensures
        grid_total(clipped, rows, combo, n).steps() == total_above(column_steps(rows, combo), n),
    decreases n,
{
    S::measured_units();
    if n > 0 {
        let parts = column_steps(rows, combo);
        lemma_total_above(parts, (n - 1) as nat, n);
        lemma_grid_total(clipped, rows, combo, (n - 1) as nat);
        let cell = rows[n - 1][combo];
        assert(parts[n - 1] == cell.steps());
        S::measured_order(cell, S::zero_spec());
        let front = grid_total(clipped, rows, combo, (n - 1) as nat);
        S::measured_sum(front, cell.max_spec(S::zero_spec()));
        S::measured_sum(front, cell);
    }
}

/// With tables at every node: how a hand acts by its regrets, and how it acted on average.
pub proof fn grids_share_out_one<S: MeasuredScalar>(clipped: bool, rows: Seq<Seq<S>>, combo: int)
    requires
        0 < rows.len() <= 0x1_0000_0000,
        rows.len() <= usize::MAX,
        !clipped ==> forall|a: int| 0 <= a < rows.len() ==> (#[trigger] rows[a])[combo].steps() >= 0,
        total_above(column_steps(rows, combo), rows.len()) <= S::limit(),
    ensures
        are_shares(
            column_steps(rows, combo),
            Seq::new(rows.len(), |a: int| grid_share(clipped, rows, a, combo).steps()),
            S::unit(),
        ),
{
    let parts = column_steps(rows, combo);
    lemma_grid_total(clipped, rows, combo, rows.len());
    lemma_total_above(parts, rows.len(), rows.len());
    lemma_even::<S>(rows.len() as int);
    let whole = grid_total(clipped, rows, combo, rows.len());
    S::measured_units();
    S::measured_order(whole, S::zero_spec());
    assert forall|a: int| 0 <= a < rows.len() && whole.steps() > 0 implies grid_share(
        clipped,
        rows,
        a,
        combo,
    ).steps() * whole.steps() <= above(#[trigger] parts[a]) * S::unit() < (grid_share(
        clipped,
        rows,
        a,
        combo,
    ).steps() + 1) * whole.steps() by {
        let cell = rows[a][combo];
        assert(parts[a] == cell.steps());
        S::measured_order(cell, S::zero_spec());
        if clipped {
            lemma_part(cell.max_spec(S::zero_spec()), whole);
        } else {
            lemma_part(cell, whole);
        }
    }
}

proof fn lemma_subgame_total<S: MeasuredScalar>(values: Seq<S>, n: nat)
    requires
        n <= values.len(),
        forall|i: int| 0 <= i < values.len() ==> (#[trigger] values[i]).steps() >= 0,
        total_above(steps_of(values), n) <= S::limit(),
    ensures
        total(values, n).steps() == total_above(steps_of(values), n),
    decreases n,
{
    S::measured_units();
    if n > 0 {
        lemma_total_above(steps_of(values), (n - 1) as nat, n);
        lemma_subgame_total(values, (n - 1) as nat);
        assert(steps_of(values)[n - 1] == values[n - 1].steps());
        S::measured_sum(total(values, (n - 1) as nat), values[n - 1]);
    }
}

/// In a subgame: how values that are not below zero, such as sums of strategies, share out one.
pub proof fn subgame_sums_share_out_one<S: MeasuredScalar>(values: Seq<S>)
    requires
        0 < values.len() <= 0x1_0000_0000,
        values.len() <= usize::MAX,
        forall|i: int| 0 <= i < values.len() ==> (#[trigger] values[i]).steps() >= 0,
        total_above(steps_of(values), values.len()) <= S::limit(),
    ensures
        are_shares(steps_of(values), steps_of(shares(values)), S::unit()),
{
    let parts = steps_of(values);
    lemma_subgame_total(values, values.len());
    lemma_total_above(parts, values.len(), values.len());
    lemma_even::<S>(values.len() as int);
    let whole = total(values, values.len());
    S::measured_units();
    S::measured_order(whole, S::zero_spec());
    assert forall|a: int| 0 <= a < values.len() && whole.steps() > 0 implies shares(
        values,
    )[a].steps() * whole.steps() <= above(#[trigger] parts[a]) * S::unit() < (shares(
        values,
    )[a].steps() + 1) * whole.steps() by {
        assert(parts[a] == values[a].steps());
        lemma_part(values[a], whole);
    }
}

/// In a subgame: how a hand acts by its regrets.
pub proof fn subgame_regrets_share_out_one<S: MeasuredScalar>(regrets: Seq<S>)
    requires
        0 < regrets.len() <= 0x1_0000_0000,
        regrets.len() <= usize::MAX,
        total_above(steps_of(regrets), regrets.len()) <= S::limit(),
    ensures
        are_shares(steps_of(regrets), steps_of(strategy_spec(regrets)), S::unit()),
{
    let positive = above_zero(regrets);
    S::measured_units();
    assert forall|i: int| 0 <= i < positive.len() implies (#[trigger] positive[i]).steps() == above(
        regrets[i].steps(),
    ) by {
        S::measured_order(regrets[i], S::zero_spec());
    }
    lemma_clipped(steps_of(regrets), steps_of(positive), regrets.len());
    subgame_sums_share_out_one(positive);
    assert forall|a: int| 0 <= a < regrets.len() implies above(#[trigger] steps_of(positive)[a])
        == above(steps_of(regrets)[a]) by {}
}

proof fn lemma_clipped(parts: Seq<int>, clipped: Seq<int>, n: nat)
    requires
        n <= parts.len(),
        clipped.len() == parts.len(),
        forall|i: int| 0 <= i < parts.len() ==> #[trigger] clipped[i] == above(parts[i]),
    ensures
        total_above(clipped, n) == total_above(parts, n),
    decreases n,
{
    if n > 0 {
        lemma_clipped(parts, clipped, (n - 1) as nat);
    }
}

} // verus!
