//! Which hands on a river block others, and which are dealt together.
use vstd::prelude::*;
use crate::cards::{card_bits_overlap, masks_together};
use crate::measure::MeasuredScalar;
use crate::river::{blocked, deal_row, deal_rows, report_of, top_count_spec, Combo, RiverCombo};

verus! {

/// Whether two hands share a card.
pub open spec fn hands_meet(a: Combo, b: Combo) -> bool {
    a.first == b.first || a.first == b.second || a.second == b.first || a.second == b.second
}

/// Masks of hands overlap just if the hands share a card.
pub proof fn masks_meet_as_hands_do(a: Combo, b: Combo)
    ensures
        (a.mask_spec() & b.mask_spec() != 0) == hands_meet(a, b),
{
    let both = b.first.bit() | b.second.bit();
    masks_together(a.first.bit(), a.second.bit(), both);
    masks_together(b.first.bit(), b.second.bit(), a.first.bit());
    masks_together(b.first.bit(), b.second.bit(), a.second.bit());
    card_bits_overlap(a.first, b.first);
    card_bits_overlap(a.first, b.second);
    card_bits_overlap(a.second, b.first);
    card_bits_overlap(a.second, b.second);
}

/// How many of the first `n` hands share a card with a hand.
pub open spec fn hands_met(hero: Combo, hands: Seq<RiverCombo>, n: nat) -> nat
    decreases n,
{
    if n == 0 {
        0
    } else {
        hands_met(hero, hands, (n - 1) as nat) + (if hands_meet(hero, hands[n - 1].combo) {
            1nat
        } else {
            0
        })
    }
}

proof fn lemma_blocked(hero: Combo, hands: Seq<RiverCombo>, n: nat)
    requires
        n <= hands.len(),
        forall|i: int| 0 <= i < hands.len() ==> (#[trigger] hands[i]).mask == hands[i].combo.mask_spec(),
    ensures
        blocked(hero.mask_spec(), hands, n) == hands_met(hero, hands, n) <= n,
    decreases n,
{
    if n > 0 {
        lemma_blocked(hero, hands, (n - 1) as nat);
        masks_meet_as_hands_do(hero, hands[n - 1].combo);
    }
}

proof fn lemma_met_grows(hero: Combo, hands: Seq<RiverCombo>, m: nat, n: nat)
    requires
        m <= n,
    ensures
        hands_met(hero, hands, m) <= hands_met(hero, hands, n),
    decreases n,
{
    if m < n {
        lemma_met_grows(hero, hands, m, (n - 1) as nat);
    }
}

/// A hand blocks the hands that share a card with it, of all and of those at the top; it blocks no more at the top than
/// there are, and none at the top that it does not block at all.
pub proof fn hands_block_what_shares_a_card<S: MeasuredScalar>(
    hero: RiverCombo,
    villains: Seq<RiverCombo>,
    fraction: S,
)
    requires
        villains.len() <= usize::MAX,
        villains.len() <= u32::MAX,
        villains.len() * S::unit() <= S::limit(),
        hero.mask == hero.combo.mask_spec(),
        forall|i: int|
            0 <= i < villains.len() ==> (#[trigger] villains[i]).mask == villains[i].combo.mask_spec(),
    ensures
        ({
            let report = report_of(hero, villains, fraction);
            &&& report.hero == hero
            &&& report.total_villain_combos == villains.len()
            &&& report.blocked_villain_combos == hands_met(hero.combo, villains, villains.len())
            &&& report.blocked_top_combos == hands_met(
                hero.combo,
                villains,
                report.top_villain_combos as nat,
            )
            &&& report.blocked_top_combos <= report.blocked_villain_combos
            &&& report.blocked_top_combos <= report.top_villain_combos <= villains.len()
        }),
{
    tops_are_shares(villains.len(), fraction);
    let top = top_count_spec(villains.len(), fraction);
    lemma_blocked(hero.combo, villains, villains.len());
    lemma_blocked(hero.combo, villains, top);
    lemma_met_grows(hero.combo, villains, top, villains.len());
}

/// As many hands are at the top as the share of all that is asked for, rounded up, at least one; all of them for a share
/// of one or more.
pub proof fn tops_are_shares<S: MeasuredScalar>(count: nat, fraction: S)
    requires
        count <= usize::MAX,
        count <= u32::MAX,
        count * S::unit() <= S::limit(),
    ensures
        ({
            let top = top_count_spec(count, fraction);
            let f = fraction.steps();
            &&& top <= count
            &&& count > 0 ==> top >= 1
            &&& f >= S::unit() ==> top == count
            &&& 0 < f <= S::unit() && count > 0 ==> (top - 1) * S::unit() < count * f <= top * S::unit()
            &&& f <= 0 && count > 0 ==> top == 1
        }),
{
    S::measured_units();
    let (zero, one) = (S::zero_spec(), S::one_spec());
    let u = S::unit();
    S::measured_order(fraction, zero);
    S::measured_order(fraction.max_spec(zero), one);
    let share = fraction.max_spec(zero).min_spec(one);
    let s = share.steps();
    let n = count as int;
    S::measured_counts(0, count as usize);
    assert((n * u) * s == u * (n * s)) by (nonlinear_arith);
    vstd::arithmetic::div_mod::lemma_div_multiples_vanish(n * s, u);
    assert(0 <= n * s <= n * u) by (nonlinear_arith)
        requires
            0 <= s <= u,
            n >= 0,
    ;
    S::measured_product(S::from_count_spec(count as usize), share);
    let part = S::from_count_spec(count as usize).times_spec(share);
    assert(part.steps() == n * s);
    S::measured_ceiling(part);
    let (a, rest) = ((n * s + u - 1) / u, (n * s + u - 1) % u);
    vstd::arithmetic::div_mod::lemma_fundamental_div_mod(n * s + u - 1, u);
    assert(u * a == a * u) by (nonlinear_arith);
    assert((a - 1) * u == a * u - u) by (nonlinear_arith);
    assert((a - 1) * u < n * s || n * s == 0 && a == 0) by (nonlinear_arith)
        requires
            n * s + u - 1 == u * a + rest,
            0 <= rest < u,
            n * s >= 0,
            u >= 2,
    ;
    assert(0 <= a <= n) by (nonlinear_arith)
        requires
            n * s + u - 1 == u * a + rest,
            0 <= rest < u,
            0 <= n * s <= n * u,
            u >= 2,
            n >= 0,
    ;
    assert(s == u ==> a == n) by (nonlinear_arith)
        requires
            n * s + u - 1 == u * a + rest,
            0 <= rest < u,
            u >= 2,
    ;
    assert(s > 0 && n > 0 ==> n * s > 0) by (nonlinear_arith);
    assert(s == 0 ==> n * s == 0) by (nonlinear_arith);
    assert(n * s > 0 ==> a >= 1) by (nonlinear_arith)
        requires
            n * s + u - 1 == u * a + rest,
            0 <= rest < u,
            u >= 2,
    ;
}

/// Whether a deal is of two hands.
pub open spec fn is_pair(deal: (usize, usize), i: int, j: int) -> bool {
    deal.0 == i && deal.1 == j
}

/// Every two hands that share no card are dealt together, either to either player.
pub proof fn river_deals_are_all_pairs(hands: Seq<RiverCombo>, i: int, j: int)
    requires
        0 <= i < hands.len() <= usize::MAX,
        0 <= j < hands.len(),
        i != j,
        forall|k: int| 0 <= k < hands.len() ==> (#[trigger] hands[k]).mask == hands[k].combo.mask_spec(),
        !hands_meet(hands[i].combo, hands[j].combo),
    ensures
        exists|k: int|
            0 <= k < deal_rows(hands, hands.len()).len() && is_pair(
                #[trigger] deal_rows(hands, hands.len())[k],
                i,
                j,
            ),
        exists|k: int|
            0 <= k < deal_rows(hands, hands.len()).len() && is_pair(
                #[trigger] deal_rows(hands, hands.len())[k],
                j,
                i,
            ),
{
    masks_meet_as_hands_do(hands[i].combo, hands[j].combo);
    masks_meet_as_hands_do(hands[j].combo, hands[i].combo);
    lemma_deals(hands, i, j, hands.len());
    lemma_deals(hands, j, i, hands.len());
}

proof fn lemma_deal(hands: Seq<RiverCombo>, i: int, j: int, m: nat)
    requires
        0 <= i < hands.len() <= usize::MAX,
        0 <= j < m <= hands.len(),
        i != j,
        hands[i].mask & hands[j].mask == 0,
    ensures
        exists|k: int|
            0 <= k < deal_row(hands, i, m).len() && is_pair(#[trigger] deal_row(hands, i, m)[k], i, j),
    decreases m,
{
    let front = deal_row(hands, i, (m - 1) as nat);
    let row = deal_row(hands, i, m);
    if j < m - 1 {
        lemma_deal(hands, i, j, (m - 1) as nat);
        let k = choose|k: int| 0 <= k < front.len() && is_pair(#[trigger] front[k], i, j);
        assert(row[k] == front[k]);
        assert(is_pair(row[k], i, j));
    } else {
        assert(is_pair(row[front.len() as int], i, j));
    }
}

proof fn lemma_deals(hands: Seq<RiverCombo>, i: int, j: int, n: nat)
    requires
        0 <= i < n <= hands.len() <= usize::MAX,
        0 <= j < hands.len(),
        i != j,
        hands[i].mask & hands[j].mask == 0,
    ensures
        exists|k: int|
            0 <= k < deal_rows(hands, n).len() && is_pair(#[trigger] deal_rows(hands, n)[k], i, j),
    decreases n,
{
    let front = deal_rows(hands, (n - 1) as nat);
    let row = deal_row(hands, n - 1, hands.len());
    let deals = deal_rows(hands, n);
    if i < n - 1 {
        lemma_deals(hands, i, j, (n - 1) as nat);
        let k = choose|k: int| 0 <= k < front.len() && is_pair(#[trigger] front[k], i, j);
        assert(deals[k] == front[k]);
        assert(is_pair(deals[k], i, j));
    } else {
        lemma_deal(hands, i, j, hands.len());
        let k = choose|k: int| 0 <= k < row.len() && is_pair(#[trigger] row[k], i, j);
        assert(deals[front.len() + k] == row[k]);
        assert(is_pair(deals[front.len() + k], i, j));
    }
}

} // verus!
