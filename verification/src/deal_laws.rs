//! Which deals are drawn, and how often.
use vstd::prelude::*;
use crate::measure::MeasuredScalar;
use crate::subgame_deals::{
    added_up, can_be_dealt, cumulative, deal_row, deal_rows, draws_focused, drawn_deal, drawn_unit,
    focused_rows, halved, is_focused, LegalDeal, WeightedPostflopCombo,
};

verus! {

/// The weights of the first `n` deals that are above zero, added up, in steps.
pub open spec fn dealt_steps<S: MeasuredScalar>(deals: Seq<LegalDeal<S>>, n: nat) -> int
    decreases n,
{
    if n == 0 {
        0
    } else {
        let weight = deals[n - 1].weight.steps();
        dealt_steps(deals, (n - 1) as nat) + (if weight > 0 {
            weight
        } else {
            0
        })
    }
}

proof fn lemma_cumulative<S: MeasuredScalar>(deals: Seq<LegalDeal<S>>, m: nat, n: nat)
    requires
        m <= n <= deals.len(),
        dealt_steps(deals, n) <= S::limit(),
    ensures
        cumulative(deals, n).steps() == dealt_steps(deals, n),
        0 <= dealt_steps(deals, m) <= dealt_steps(deals, n),
    decreases n,
{
    S::measured_units();
    if n > 0 {
        let k = (n - 1) as nat;
        lemma_cumulative(
            deals,
            if m <= k {
                m
            } else {
                k
            },
            k,
        );
        let weight = deals[n - 1].weight;
        S::measured_order(weight, S::zero_spec());
        S::measured_sum(cumulative(deals, k), weight.max_spec(S::zero_spec()));
    }
}

/// The place that halving finds is the first whose weights add up to a threshold, if weights add up on the way.
pub proof fn halving_finds_the_first<S: MeasuredScalar>(
    deals: Seq<LegalDeal<S>>,
    threshold: S,
    low: int,
    high: int,
)
    requires
        0 <= low <= high <= deals.len(),
        forall|i: int, j: int|
            0 <= i <= j < deals.len() ==> (#[trigger] deals[i]).cumulative_weight.steps() <= (
            #[trigger] deals[j]).cumulative_weight.steps(),
        forall|i: int|
            0 <= i < low ==> (#[trigger] deals[i]).cumulative_weight.steps() < threshold.steps(),
        forall|i: int|
            high <= i < deals.len() ==> (#[trigger] deals[i]).cumulative_weight.steps()
                >= threshold.steps(),
    ensures
        ({
            let place = halved(deals, threshold, low, high);
            &&& low <= place <= high
            &&& forall|i: int|
                0 <= i < place ==> (#[trigger] deals[i]).cumulative_weight.steps() < threshold.steps()
            &&& forall|i: int|
                place <= i < deals.len() ==> (#[trigger] deals[i]).cumulative_weight.steps()
                    >= threshold.steps()
        }),
    decreases high - low,
{
    if low < high {
        let mid = (low + high) / 2;
        S::measured_order(threshold, deals[mid].cumulative_weight);
        if threshold.exceeds_spec(deals[mid].cumulative_weight) {
            assert forall|i: int| 0 <= i < mid + 1 implies (#[trigger] deals[i]).cumulative_weight.steps()
                < threshold.steps() by {
                assert(deals[i].cumulative_weight.steps() <= deals[mid].cumulative_weight.steps());
            }
            halving_finds_the_first(deals, threshold, mid + 1, high);
        } else {
            assert forall|i: int| mid <= i < deals.len() implies (
            #[trigger] deals[i]).cumulative_weight.steps() >= threshold.steps() by {
                assert(deals[mid].cumulative_weight.steps() <= deals[i].cumulative_weight.steps());
            }
            halving_finds_the_first(deals, threshold, low, mid);
        }
    }
}

/// A deal is drawn just if what is drawn of all weights falls on its own: behind those of the deals before it, and
/// not behind its own. A deal without weight is drawn only if nothing is drawn.
pub proof fn deals_are_drawn_by_weight<S: MeasuredScalar>(bare: Seq<LegalDeal<S>>, iteration: int)
    requires
        bare.len() > 0,
        0 < dealt_steps(bare, bare.len()) <= S::limit(),
        ({
            let total = added_up(bare).last().cumulative_weight;
            drawn_unit::<S>(iteration).times_spec(total).steps() <= total.steps()
        }),
    ensures
        ({
            let deals = added_up(bare);
            let place = drawn_deal(deals, iteration);
            let drawn = drawn_unit::<S>(iteration).times_spec(deals.last().cumulative_weight).steps();
            &&& 0 <= place < bare.len()
            &&& place > 0 ==> dealt_steps(bare, place as nat) < drawn
            &&& drawn <= dealt_steps(bare, (place + 1) as nat)
            &&& deals.last().cumulative_weight.steps() == dealt_steps(bare, bare.len())
            &&& drawn > 0 ==> bare[place].weight.steps() > 0
        }),
{
    S::measured_units();
    let deals = added_up(bare);
    let n = bare.len();
    assert forall|i: int, j: int| 0 <= i <= j < deals.len() implies (
    #[trigger] deals[i]).cumulative_weight.steps() <= (#[trigger] deals[j]).cumulative_weight.steps() by {
        lemma_cumulative(bare, (j + 1) as nat, n);
        lemma_cumulative(bare, (i + 1) as nat, (j + 1) as nat);
        lemma_cumulative(bare, (i + 1) as nat, (i + 1) as nat);
    }
    lemma_cumulative(bare, n, n);
    let total = deals.last().cumulative_weight;
    assert(total == cumulative(bare, n));
    S::measured_order(S::zero_spec(), total);
    let threshold = drawn_unit::<S>(iteration).times_spec(total);
    halving_finds_the_first(deals, threshold, 0, n as int);
    let place = halved(deals, threshold, 0, n as int);
    assert(deals[n - 1].cumulative_weight.steps() >= threshold.steps());
    if place == n {
        assert(deals[n - 1].cumulative_weight.steps() < threshold.steps());
    }
    assert(place < n);
    lemma_cumulative(bare, (place + 1) as nat, n);
    lemma_cumulative(bare, (place + 1) as nat, (place + 1) as nat);
    assert(deals[place].cumulative_weight == cumulative(bare, (place + 1) as nat));
    if place > 0 {
        lemma_cumulative(bare, place as nat, n);
        lemma_cumulative(bare, place as nat, place as nat);
        assert(deals[place - 1].cumulative_weight == cumulative(bare, place as nat));
        assert(deals[place - 1].cumulative_weight.steps() < threshold.steps());
    }
    let next = (place + 1) as nat;
    assert((next - 1) as nat == place as nat);
    let weight = bare[next - 1].weight.steps();
    assert(dealt_steps(bare, next) == dealt_steps(bare, place as nat) + (if weight > 0 {
        weight
    } else {
        0
    }));
    assert(dealt_steps(bare, 0) == 0);
    assert(deals[place].cumulative_weight.steps() >= threshold.steps());
}

/// Deals that are looked for are never drawn at a rate of zero, always at a rate of one, and at a higher rate
/// whenever they are at a lower.
pub proof fn rates_draw_more_often<S: MeasuredScalar>(iteration: int, low: S, high: S)
    requires
        low.steps() <= high.steps(),
    ensures
        low.steps() <= 0 ==> !draws_focused(iteration, low),
        high.steps() >= S::unit() ==> draws_focused(iteration, high),
        draws_focused(iteration, low) ==> draws_focused(iteration, high),
{
    S::measured_units();
    let (zero, one) = (S::zero_spec(), S::one_spec());
    S::measured_order(zero, low);
    S::measured_order(zero, high);
    S::measured_order(low, one);
    S::measured_order(high, one);
    if 0 < low.steps() && high.steps() < S::unit() {
        let (a, b, u) = (low.steps(), high.steps(), S::unit());
        let ten = S::from_u32_spec(10_000);
        S::measured_counts(10_000, 0);
        assert(a * (10_000 * u) == u * (10_000 * a)) by (nonlinear_arith);
        assert(b * (10_000 * u) == u * (10_000 * b)) by (nonlinear_arith);
        vstd::arithmetic::div_mod::lemma_div_multiples_vanish(10_000 * a, u);
        vstd::arithmetic::div_mod::lemma_div_multiples_vanish(10_000 * b, u);
        assert(10_000 * b <= S::limit()) by (nonlinear_arith)
            requires
                b < u,
                u * 0x1_0000_0000 <= S::limit(),
                u >= 2,
        ;
        S::measured_product(low, ten);
        S::measured_product(high, ten);
        S::measured_rounding(low.times_spec(ten));
        S::measured_rounding(high.times_spec(ten));
        vstd::arithmetic::div_mod::lemma_div_is_ordered(
            2 * (10_000 * a) + u,
            2 * (10_000 * b) + u,
            2 * u,
        );
    }
}

/// A deal of two hands is among the deals just if the hands share no card, and weighs as much as both hands do.
pub proof fn deals_are_all_pairs<S: MeasuredScalar>(
    oop: Seq<WeightedPostflopCombo<S>>,
    ip: Seq<WeightedPostflopCombo<S>>,
    i: int,
    j: int,
)
    requires
        0 <= i < oop.len() <= usize::MAX,
        0 <= j < ip.len() <= usize::MAX,
    ensures
        ({
            let deals = deal_rows(oop, ip, oop.len());
            &&& oop[i].combo.mask & ip[j].combo.mask == 0 ==> exists|k: int|
                0 <= k < deals.len() && is_deal(#[trigger] deals[k], i, j)
            &&& forall|k: int|
                0 <= k < deals.len() ==> {
                    let deal = #[trigger] deals[k];
                    &&& can_be_dealt(oop, ip, deal)
                    &&& deal.weight == oop[deal.oop_index as int].weight.times_spec(
                        ip[deal.ip_index as int].weight,
                    )
                }
        }),
{
    lemma_rows(oop, ip, i, j, oop.len());
}

/// Whether a deal is of two hands.
pub open spec fn is_deal<S>(deal: LegalDeal<S>, i: int, j: int) -> bool {
    deal.oop_index == i && deal.ip_index == j
}

proof fn lemma_row<S: MeasuredScalar>(
    oop: Seq<WeightedPostflopCombo<S>>,
    ip: Seq<WeightedPostflopCombo<S>>,
    i: int,
    j: int,
    m: nat,
)
    requires
        0 <= i < oop.len() <= usize::MAX,
        m <= ip.len() <= usize::MAX,
    ensures
        ({
            let row = deal_row(oop, ip, i, m);
            &&& 0 <= j < m && oop[i].combo.mask & ip[j].combo.mask == 0 ==> exists|k: int|
                0 <= k < row.len() && is_deal(#[trigger] row[k], i, j)
            &&& forall|k: int|
                0 <= k < row.len() ==> {
                    let deal = #[trigger] row[k];
                    &&& can_be_dealt(oop, ip, deal)
                    &&& deal.weight == oop[deal.oop_index as int].weight.times_spec(
                        ip[deal.ip_index as int].weight,
                    )
                }
        }),
    decreases m,
{
    if m > 0 {
        lemma_row(oop, ip, i, j, (m - 1) as nat);
        let front = deal_row(oop, ip, i, (m - 1) as nat);
        let row = deal_row(oop, ip, i, m);
        if 0 <= j < m && oop[i].combo.mask & ip[j].combo.mask == 0 {
            if j < m - 1 {
                let k = choose|k: int| 0 <= k < front.len() && is_deal(#[trigger] front[k], i, j);
                assert(row[k] == front[k]);
                assert(is_deal(row[k], i, j));
            } else {
                assert(is_deal(row[front.len() as int], i, j));
            }
        }
    }
}

proof fn lemma_rows<S: MeasuredScalar>(
    oop: Seq<WeightedPostflopCombo<S>>,
    ip: Seq<WeightedPostflopCombo<S>>,
    i: int,
    j: int,
    n: nat,
)
    requires
        n <= oop.len() <= usize::MAX,
        ip.len() <= usize::MAX,
    ensures
        ({
            let deals = deal_rows(oop, ip, n);
            &&& 0 <= i < n && 0 <= j < ip.len() && oop[i].combo.mask & ip[j].combo.mask == 0
                ==> exists|k: int| 0 <= k < deals.len() && is_deal(#[trigger] deals[k], i, j)
            &&& forall|k: int|
                0 <= k < deals.len() ==> {
                    let deal = #[trigger] deals[k];
                    &&& can_be_dealt(oop, ip, deal)
                    &&& deal.weight == oop[deal.oop_index as int].weight.times_spec(
                        ip[deal.ip_index as int].weight,
                    )
                }
        }),
    decreases n,
{
    if n > 0 {
        lemma_rows(oop, ip, i, j, (n - 1) as nat);
        lemma_row(oop, ip, n - 1, j, ip.len());
        let front = deal_rows(oop, ip, (n - 1) as nat);
        let row = deal_row(oop, ip, n - 1, ip.len());
        let deals = deal_rows(oop, ip, n);
        if 0 <= i < n && 0 <= j < ip.len() && oop[i].combo.mask & ip[j].combo.mask == 0 {
            if i < n - 1 {
                let k = choose|k: int| 0 <= k < front.len() && is_deal(#[trigger] front[k], i, j);
                assert(deals[k] == front[k]);
                assert(is_deal(deals[k], i, j));
            } else {
                let k = choose|k: int| 0 <= k < row.len() && is_deal(#[trigger] row[k], i, j);
                assert(deals[front.len() + k] == row[k]);
                assert(is_deal(deals[front.len() + k], i, j));
            }
        }
        assert forall|k: int| 0 <= k < deals.len() implies {
            let deal = #[trigger] deals[k];
            &&& can_be_dealt(oop, ip, deal)
            &&& deal.weight == oop[deal.oop_index as int].weight.times_spec(
                ip[deal.ip_index as int].weight,
            )
        } by {
            if k < front.len() {
                assert(deals[k] == front[k]);
            } else {
                assert(deals[k] == row[k - front.len()]);
            }
        }
    }
}

/// The deals that are looked for are just those that give the players the hands that are looked for, with the
/// weights that they have.
pub proof fn focused_deals_are_those_looked_for<S: MeasuredScalar>(
    oop: Seq<WeightedPostflopCombo<S>>,
    ip: Seq<WeightedPostflopCombo<S>>,
    deals: Seq<LegalDeal<S>>,
    oop_mask: Option<u64>,
    ip_mask: Option<u64>,
    n: nat,
)
    requires
        n <= deals.len(),
    ensures
        ({
            let rows = focused_rows(oop, ip, deals, oop_mask, ip_mask, n);
            &&& rows.len() <= n
            &&& forall|k: int|
                0 <= k < rows.len() ==> is_focused(oop, ip, #[trigger] rows[k], oop_mask, ip_mask)
            &&& forall|m: int|
                0 <= m < n && is_focused(oop, ip, #[trigger] deals[m], oop_mask, ip_mask)
                    ==> exists|k: int|
                    0 <= k < rows.len() && is_same_deal(#[trigger] rows[k], deals[m])
        }),
    decreases n,
{
    if n > 0 {
        focused_deals_are_those_looked_for(oop, ip, deals, oop_mask, ip_mask, (n - 1) as nat);
        let front = focused_rows(oop, ip, deals, oop_mask, ip_mask, (n - 1) as nat);
        let rows = focused_rows(oop, ip, deals, oop_mask, ip_mask, n);
        assert forall|m: int|
            0 <= m < n && is_focused(oop, ip, #[trigger] deals[m], oop_mask, ip_mask) implies exists|
            k: int,
        |
            0 <= k < rows.len() && is_same_deal(#[trigger] rows[k], deals[m]) by {
            if m < n - 1 {
                let k = choose|k: int|
                    0 <= k < front.len() && is_same_deal(#[trigger] front[k], deals[m]);
                assert(rows[k] == front[k]);
                assert(is_same_deal(rows[k], deals[m]));
            } else {
                assert(is_same_deal(rows[front.len() as int], deals[m]));
            }
        }
    }
}

/// Whether two deals are of the same hands and weigh the same.
pub open spec fn is_same_deal<S>(a: LegalDeal<S>, b: LegalDeal<S>) -> bool {
    a.oop_index == b.oop_index && a.ip_index == b.ip_index && a.weight == b.weight
}

} // verus!
