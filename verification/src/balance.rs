//! What two players win from each other, hand against hand, adds up to nothing, over numbers that
//! multiply as they do where nothing is rounded.
use vstd::prelude::*;
use crate::scalar::{ExactScalar, Scalar};
use crate::sums::{sum_below, sum_below_negate, sum_below_plus, sum_below_same};

verus! {

/// Whether products do not depend on the order, sums are multiplied part by part, and a quotient is the
/// product with one over the divisor.
#[verifier::opaque]
pub open spec fn products_agree<S: Scalar>() -> bool {
    &&& forall|a: S, b: S| #[trigger] a.times_spec(b) == b.times_spec(a)
    &&& forall|a: S, b: S, c: S|
        #[trigger] a.times_spec(b).times_spec(c) == a.times_spec(b.times_spec(c))
    &&& forall|a: S, b: S, c: S|
        #[trigger] a.times_spec(b.plus_spec(c)) == a.times_spec(b).plus_spec(a.times_spec(c))
    &&& forall|a: S, b: S| #[trigger] a.over_spec(b) == a.times_spec(S::one_spec().over_spec(b))
}

/// Products do not depend on the order, and sums are multiplied part by part.
pub proof fn times_laws<S: Scalar>(a: S, b: S, c: S)
    requires
        products_agree::<S>(),
    ensures
        a.times_spec(b) == b.times_spec(a),
        a.times_spec(b).times_spec(c) == a.times_spec(b.times_spec(c)),
        a.times_spec(b.plus_spec(c)) == a.times_spec(b).plus_spec(a.times_spec(c)),
        a.over_spec(b) == a.times_spec(S::one_spec().over_spec(b)),
{
    reveal(products_agree);
}

/// What hands that are reached so often earn together.
pub open spec fn earned<S: Scalar>(reach: Seq<S>, values: Seq<S>) -> S {
    sum_below(earnings(reach, values), reach.len())
}

/// What each hand earns.
pub open spec fn earnings<S: Scalar>(reach: Seq<S>, values: Seq<S>) -> spec_fn(int) -> S {
    |h: int| reach[h].times_spec(values[h])
}

/// A number times a negated number is the negated product.
pub proof fn times_negated<S: ExactScalar>(a: S, b: S)
    requires
        products_agree::<S>(),
    ensures
        a.times_spec(b.negate_spec()) == a.times_spec(b).negate_spec(),
        a.negate_spec().times_spec(b) == a.times_spec(b).negate_spec(),
{
    let less = S::one_spec().negate_spec();
    S::times_unit(b);
    S::times_unit(a);
    S::times_unit(a.times_spec(b));
    times_laws(a, b, less);
    times_laws(b, a, less);
    times_laws(b, a.negate_spec(), less);
}

/// A sum is multiplied part by part.
pub proof fn sum_below_times<S: ExactScalar>(
    f: spec_fn(int) -> S,
    g: spec_fn(int) -> S,
    factor: S,
    n: nat,
)
    requires
        products_agree::<S>(),
        forall|i: int| 0 <= i < n ==> #[trigger] g(i) == factor.times_spec(f(i)),
    ensures
        sum_below(g, n) == factor.times_spec(sum_below(f, n)),
    decreases n,
{
    S::times_unit(factor);
    if n > 0 {
        sum_below_times(f, g, factor, (n - 1) as nat);
        times_laws(factor, sum_below(f, (n - 1) as nat), f(n - 1));
    }
}

/// The sum over a row of a grid.
spec fn row_sum<S: Scalar>(f: spec_fn(int, int) -> S, m: nat) -> spec_fn(int) -> S {
    |i: int| sum_below(|j: int| f(i, j), m)
}

/// The sum over a column of a grid.
spec fn column_sum<S: Scalar>(f: spec_fn(int, int) -> S, n: nat) -> spec_fn(int) -> S {
    |j: int| sum_below(|i: int| f(i, j), n)
}

/// A grid has one sum, row by row and column by column.
proof fn lemma_grid<S: ExactScalar>(f: spec_fn(int, int) -> S, n: nat, m: nat)
    ensures
        sum_below(row_sum(f, m), n) == sum_below(column_sum(f, n), m),
    decreases n,
{
    let columns = column_sum(f, n);
    if n == 0 {
        assert forall|j: int| 0 <= j < m implies #[trigger] columns(j) == S::zero_spec() by {}
        crate::sums::sum_below_zero(columns, m);
    } else {
        let front = column_sum(f, (n - 1) as nat);
        let last = |j: int| f(n - 1, j);
        let both = |j: int| front(j).plus_spec(last(j));
        lemma_grid(f, (n - 1) as nat, m);
        sum_below_plus(front, last, m);
        assert forall|j: int| 0 <= j < m implies #[trigger] both(j) == columns(j) by {
            assert(columns(j) == sum_below(|i: int| f(i, j), n));
            assert(front(j) == sum_below(|i: int| f(i, j), (n - 1) as nat));
        }
        sum_below_same(both, columns, m);
        assert(row_sum(f, m)(n - 1) == sum_below(|j: int| f(n - 1, j), m));
        sum_below_same(|j: int| f(n - 1, j), last, m);
    }
}

/// What a hand earns from the hands of an opponent.
pub open spec fn earned_from<S: Scalar>(share: spec_fn(int, int) -> S, reach: Seq<S>, i: int) -> spec_fn(
    int,
) -> S {
    |j: int| share(i, j).times_spec(reach[j])
}

/// What a hand loses to the hands of an opponent.
pub open spec fn lost_to<S: Scalar>(share: spec_fn(int, int) -> S, reach: Seq<S>, j: int) -> spec_fn(
    int,
) -> S {
    |i: int| share(i, j).negate_spec().times_spec(reach[i])
}

/// If every hand loses to every hand of the opponent what that hand earns from it, both sides together
/// earn nothing.
pub proof fn pairs_cancel<S: ExactScalar>(
    share: spec_fn(int, int) -> S,
    own: Seq<S>,
    opponent: Seq<S>,
    values: Seq<S>,
    losses: Seq<S>,
)
    requires
        products_agree::<S>(),
        forall|i: int|
            0 <= i < own.len() ==> #[trigger] values[i] == sum_below(
                earned_from(share, opponent, i),
                opponent.len(),
            ),
        forall|j: int|
            0 <= j < opponent.len() ==> #[trigger] losses[j] == sum_below(
                lost_to(share, own, j),
                own.len(),
            ),
    ensures
        earned(own, values).plus_spec(earned(opponent, losses)) == S::zero_spec(),
{
    let (n, m) = (own.len(), opponent.len());
    let f = |i: int, j: int| own[i].times_spec(share(i, j).times_spec(opponent[j]));
    let rows = row_sum(f, m);
    let columns = column_sum(f, n);
    lemma_grid(f, n, m);
    assert forall|i: int| 0 <= i < n implies #[trigger] earnings(own, values)(i) == rows(i) by {
        assert(values[i] == sum_below(earned_from(share, opponent, i), m));
        sum_below_times(earned_from(share, opponent, i), |j: int| f(i, j), own[i], m);
    }
    sum_below_same(earnings(own, values), rows, n);
    let back = |j: int| columns(j).negate_spec();
    assert forall|j: int| 0 <= j < m implies #[trigger] earnings(opponent, losses)(j) == back(j) by {
        let lost = lost_to(share, own, j);
        let column = |i: int| f(i, j);
        let less = |i: int| column(i).negate_spec();
        assert(losses[j] == sum_below(lost, n));
        assert forall|i: int| 0 <= i < n implies #[trigger] less(i) == opponent[j].times_spec(
            lost(i),
        ) by {
            let s = share(i, j);
            times_negated(s, own[i]);
            times_negated(opponent[j], s.times_spec(own[i]));
            assert(lost(i) == s.times_spec(own[i]).negate_spec());
            times_laws(s, own[i], opponent[j]);
            times_laws(own[i], s, opponent[j]);
            times_laws(opponent[j], own[i].times_spec(s), s);
        }
        sum_below_times(lost, less, opponent[j], n);
        sum_below_negate(column, n);
        sum_below_same(less, |i: int| column(i).negate_spec(), n);
        assert(columns(j) == sum_below(column, n)) by {
            sum_below_same(|i: int| f(i, j), column, n);
        }
    }
    sum_below_same(earnings(opponent, losses), back, m);
    sum_below_negate(columns, m);
    sum_below_same(back, |j: int| columns(j).negate_spec(), m);
    S::plus_negation(sum_below(rows, n));
}

} // verus!
