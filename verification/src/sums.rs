//! Sums over positions, for number types whose sums do not depend on the order.
use vstd::prelude::*;
use crate::scalar::{ExactScalar, Scalar};

verus! {

/// The sum of a function over the positions below `n`, from the front.
pub open spec fn sum_below<S: Scalar>(f: spec_fn(int) -> S, n: nat) -> S
    decreases n,
{
    if n == 0 {
        S::zero_spec()
    } else {
        sum_below(f, (n - 1) as nat).plus_spec(f(n - 1))
    }
}

/// Functions that agree have one sum.
pub proof fn sum_below_same<S: Scalar>(f: spec_fn(int) -> S, g: spec_fn(int) -> S, n: nat)
    requires
        forall|i: int| 0 <= i < n ==> #[trigger] f(i) == g(i),
    ensures
        sum_below(f, n) == sum_below(g, n),
    decreases n,
{
    if n > 0 {
        sum_below_same(f, g, (n - 1) as nat);
    }
}

/// A sum of zeros is zero.
pub proof fn sum_below_zero<S: ExactScalar>(f: spec_fn(int) -> S, n: nat)
    requires
        forall|i: int| 0 <= i < n ==> #[trigger] f(i) == S::zero_spec(),
    ensures
        sum_below(f, n) == S::zero_spec(),
    decreases n,
{
    if n > 0 {
        sum_below_zero(f, (n - 1) as nat);
        S::plus_zero(S::zero_spec());
    }
}

/// Zeros at the end of a sum add nothing.
pub proof fn sum_below_tail<S: ExactScalar>(f: spec_fn(int) -> S, k: nat, n: nat)
    requires
        k <= n,
        forall|i: int| k <= i < n ==> #[trigger] f(i) == S::zero_spec(),
    ensures
        sum_below(f, n) == sum_below(f, k),
    decreases n,
{
    if k < n {
        sum_below_tail(f, k, (n - 1) as nat);
        S::plus_zero(sum_below(f, (n - 1) as nat));
    }
}

/// (a + b) + (c + d) == (a + c) + (b + d).
pub proof fn plus_swap<S: ExactScalar>(a: S, b: S, c: S, d: S)
    ensures
        a.plus_spec(b).plus_spec(c.plus_spec(d)) == a.plus_spec(c).plus_spec(b.plus_spec(d)),
{
    S::plus_associates(a, b, c.plus_spec(d));
    S::plus_associates(b, c, d);
    S::plus_commutes(b, c);
    S::plus_associates(c, b, d);
    S::plus_associates(a, c, b.plus_spec(d));
}

/// Sums add position by position.
pub proof fn sum_below_plus<S: ExactScalar>(f: spec_fn(int) -> S, g: spec_fn(int) -> S, n: nat)
    ensures
        sum_below(|i: int| f(i).plus_spec(g(i)), n) == sum_below(f, n).plus_spec(sum_below(g, n)),
    decreases n,
{
    let h = |i: int| f(i).plus_spec(g(i));
    if n == 0 {
        S::plus_zero(S::zero_spec());
    } else {
        sum_below_plus(f, g, (n - 1) as nat);
        plus_swap(
            sum_below(f, (n - 1) as nat),
            sum_below(g, (n - 1) as nat),
            f(n - 1),
            g(n - 1),
        );
        assert(h(n - 1) == f(n - 1).plus_spec(g(n - 1)));
    }
}

/// The negation of a negation.
pub proof fn negate_twice<S: ExactScalar>(a: S)
    ensures
        a.negate_spec().negate_spec() == a,
        S::zero_spec().negate_spec() == S::zero_spec(),
{
    let n = a.negate_spec();
    S::plus_negation(a);
    S::plus_negation(n);
    S::plus_commutes(a, n);
    S::plus_associates(n.negate_spec(), n, a);
    S::plus_commutes(n, n.negate_spec());
    S::plus_commutes(n, a);
    S::plus_zero(n.negate_spec());
    S::plus_commutes(S::zero_spec(), a);
    S::plus_zero(a);
    S::plus_negation(S::zero_spec());
    S::plus_commutes(S::zero_spec(), S::zero_spec().negate_spec());
    S::plus_zero(S::zero_spec().negate_spec());
}

/// The negation of a sum.
pub proof fn negate_plus<S: ExactScalar>(a: S, b: S)
    ensures
        a.plus_spec(b).negate_spec() == a.negate_spec().plus_spec(b.negate_spec()),
{
    let x = a.plus_spec(b);
    let y = a.negate_spec().plus_spec(b.negate_spec());
    plus_swap(a, b, a.negate_spec(), b.negate_spec());
    S::plus_negation(a);
    S::plus_negation(b);
    S::plus_zero(S::zero_spec());
    assert(x.plus_spec(y) == S::zero_spec());
    // y == (-x + x) + y == -x + (x + y) == -x
    S::plus_negation(x);
    S::plus_commutes(x, x.negate_spec());
    S::plus_associates(x.negate_spec(), x, y);
    S::plus_zero(x.negate_spec());
    S::plus_commutes(S::zero_spec(), y);
    S::plus_zero(y);
}

/// Sums negate position by position.
pub proof fn sum_below_negate<S: ExactScalar>(f: spec_fn(int) -> S, n: nat)
    ensures
        sum_below(|i: int| f(i).negate_spec(), n) == sum_below(f, n).negate_spec(),
    decreases n,
{
    let h = |i: int| f(i).negate_spec();
    negate_twice(S::zero_spec());
    if n > 0 {
        sum_below_negate(f, (n - 1) as nat);
        negate_plus(sum_below(f, (n - 1) as nat), f(n - 1));
        assert(h(n - 1) == f(n - 1).negate_spec());
    }
}

/// A list of different positions below `n`.
pub open spec fn positions(list: Seq<int>, n: nat) -> bool {
    &&& forall|i: int| 0 <= i < list.len() ==> 0 <= #[trigger] list[i] < n
    &&& forall|i: int, j: int|
        0 <= i < j < list.len() ==> #[trigger] list[i] != #[trigger] list[j]
}

/// Changing one summand from zero adds it to the sum.
proof fn lemma_one_more<S: ExactScalar>(f: spec_fn(int) -> S, g: spec_fn(int) -> S, x: int, n: nat)
    requires
        f(x) == S::zero_spec(),
        forall|i: int| i != x ==> #[trigger] f(i) == g(i),
        0 <= x,
    ensures
        sum_below(g, n) == (if x < n {
            sum_below(f, n).plus_spec(g(x))
        } else {
            sum_below(f, n)
        }),
    decreases n,
{
    if n > 0 {
        lemma_one_more(f, g, x, (n - 1) as nat);
        let s = sum_below(f, (n - 1) as nat);
        assert(n - 1 != x ==> f(n - 1) == g(n - 1));
        if x == n - 1 {
            S::plus_zero(s);
        } else if x < n - 1 {
            S::plus_associates(s, g(x), f(n - 1));
            S::plus_commutes(g(x), f(n - 1));
            S::plus_associates(s, f(n - 1), g(x));
        }
    }
}

/// The sum over a list of different positions is the sum over all positions of what the list holds.
pub proof fn sum_over_list<S: ExactScalar>(list: Seq<int>, f: spec_fn(int) -> S, n: nat)
    requires
        positions(list, n),
    ensures
        sum_below(|i: int| f(list[i]), list.len()) == sum_below(
            |v: int| if list.contains(v) { f(v) } else { S::zero_spec() },
            n,
        ),
    decreases list.len(),
{
    let whole = |v: int| if list.contains(v) { f(v) } else { S::zero_spec() };
    if list.len() == 0 {
        sum_below_zero(whole, n);
    } else {
        let front = list.drop_last();
        let x = list.last();
        assert(positions(front, n)) by {
            assert forall|i: int, j: int| 0 <= i < j < front.len() implies #[trigger] front[i]
                != #[trigger] front[j] by {
                assert(list[i] != list[j]);
            }
            assert forall|i: int| 0 <= i < front.len() implies 0 <= #[trigger] front[i] < n by {
                assert(0 <= list[i] < n);
            }
        }
        sum_over_list(front, f, n);
        let part = |v: int| if front.contains(v) { f(v) } else { S::zero_spec() };
        assert(!front.contains(x)) by {
            if front.contains(x) {
                let k = choose|k: int| 0 <= k < front.len() && front[k] == x;
                assert(list[k] != list[list.len() - 1]);
            }
        }
        assert forall|v: int| v != x implies #[trigger] part(v) == whole(v) by {
            if list.contains(v) {
                let k = choose|k: int| 0 <= k < list.len() && list[k] == v;
                assert(front[k] == v);
            }
            if front.contains(v) {
                let k = choose|k: int| 0 <= k < front.len() && front[k] == v;
                assert(list[k] == v);
            }
        }
        assert(list[list.len() - 1] == x);
        assert(list.contains(x));
        assert(0 <= x < n);
        lemma_one_more(part, whole, x, n);
        sum_below_same(
            |i: int| f(list[i]),
            |i: int| f(front[i]),
            (list.len() - 1) as nat,
        );
    }
}

} // verus!
