//! The hands of a subgame, the deals of two of them, and how deals are drawn.
use vstd::prelude::*;
use crate::cards::{mask_of, Card};
use crate::hand_class::{class_hands_are_of_class, HandClass};
use crate::river::{scatter, scattered, Combo};
use crate::scalar::Scalar;
use crate::subgame::{counts, weight_counts, RangeEntry};

verus! {

/// A hand with its class.
#[derive(Clone, Copy, Debug, PartialEq, Eq, Structural)]
pub struct PostflopCombo {
    pub combo: Combo,
    pub class: HandClass,
    pub mask: u64,
}

impl PostflopCombo {
    /// The letters of the hand.
    pub fn label(&self) -> (r: String)
        ensures
            r@ == self.combo.label_spec(),
    {
        self.combo.label()
    }
}

/// A hand with how often it is held.
#[derive(Clone, Copy, Debug)]
pub struct WeightedPostflopCombo<S> {
    pub combo: PostflopCombo,
    pub weight: S,
}

/// Whether a hand is among others.
pub open spec fn has_mask<S>(list: Seq<WeightedPostflopCombo<S>>, mask: u64) -> bool {
    exists|i: int| 0 <= i < list.len() && (#[trigger] list[i]).combo.mask == mask
}

/// A list of hands with one more, if it is off the board and not in the list.
pub open spec fn with_combo<S: Scalar>(
    list: Seq<WeightedPostflopCombo<S>>,
    board_mask: u64,
    combo: Combo,
    class: HandClass,
    weight: S,
) -> Seq<WeightedPostflopCombo<S>> {
    let mask = combo.mask_spec();
    if mask & board_mask != 0 || has_mask(list, mask) {
        list
    } else {
        list.push(WeightedPostflopCombo { combo: PostflopCombo { combo, class, mask }, weight })
    }
}

/// A list of hands with the first `n` of others.
pub open spec fn with_hands<S: Scalar>(
    list: Seq<WeightedPostflopCombo<S>>,
    board_mask: u64,
    hands: Seq<Combo>,
    class: HandClass,
    weight: S,
    n: nat,
) -> Seq<WeightedPostflopCombo<S>>
    decreases n,
{
    if n == 0 {
        list
    } else {
        with_combo(
            with_hands(list, board_mask, hands, class, weight, (n - 1) as nat),
            board_mask,
            hands[n - 1],
            class,
            weight,
        )
    }
}

/// The hands of the first `n` entries of a range that are off the board, each once.
pub open spec fn range_hands<S: Scalar>(entries: Seq<RangeEntry<S>>, board_mask: u64, n: nat) -> Seq<
    WeightedPostflopCombo<S>,
>
    decreases n,
{
    if n == 0 {
        Seq::empty()
    } else {
        let front = range_hands(entries, board_mask, (n - 1) as nat);
        let entry = entries[n - 1];
        if !weight_counts(entry.weight) {
            front
        } else {
            match entry.combo {
                Some(combo) => with_combo(front, board_mask, combo, entry.class, entry.weight),
                None => with_hands(
                    front,
                    board_mask,
                    entry.class.combos_spec(),
                    entry.class,
                    entry.weight,
                    entry.class.combos_spec().len(),
                ),
            }
        }
    }
}

/// Whether hands hold two different cards off the board and no two hold the same cards.
pub open spec fn are_live<S>(list: Seq<WeightedPostflopCombo<S>>, board_mask: u64) -> bool {
    &&& forall|i: int|
        0 <= i < list.len() ==> {
            let hand = (#[trigger] list[i]).combo;
            &&& hand.mask == hand.combo.mask_spec()
            &&& hand.combo.first != hand.combo.second
            &&& hand.mask & board_mask == 0
        }
    &&& forall|i: int, j: int|
        0 <= i < j < list.len() ==> (#[trigger] list[i]).combo.mask != (
        #[trigger] list[j]).combo.mask
}

/// Adds a hand to a list, if it is off the board and not in the list.
pub fn push_weighted_combo<S: Scalar>(
    list: &mut Vec<WeightedPostflopCombo<S>>,
    board_mask: u64,
    combo: Combo,
    class: HandClass,
    weight: S,
)
    requires
        are_live(old(list)@, board_mask),
        combo.first != combo.second,
    ensures
        final(list)@ == with_combo(old(list)@, board_mask, combo, class, weight),
        are_live(final(list)@, board_mask),
{
    let mask: u64 = combo.mask();
    if mask & board_mask != 0 {
        return ;
    }
    for i in 0..list.len()
        invariant
            list@ == old(list)@,
            forall|j: int| 0 <= j < i ==> (#[trigger] list@[j]).combo.mask != mask,
            mask == combo.mask_spec(),
            are_live(old(list)@, board_mask),
    {
        if list[i].combo.mask == mask {
            assert(has_mask(old(list)@, mask));
            return ;
        }
    }
    list.push(WeightedPostflopCombo { combo: PostflopCombo { combo, class, mask }, weight });
}

/// The hands of a range that are off the board, each once.
pub fn weighted_postflop_combos<S: Scalar>(entries: &[RangeEntry<S>], board: &[Card]) -> (r: Vec<
    WeightedPostflopCombo<S>,
>)
    requires
        forall|i: int| 0 <= i < entries@.len() ==> (#[trigger] entries@[i]).valid(),
    ensures
        r@ == range_hands(entries@, mask_of(board@), entries@.len()),
        are_live(r@, mask_of(board@)),
{
    let board_mask: u64 = board_mask(board);
    let mut list: Vec<WeightedPostflopCombo<S>> = Vec::new();
    for n in 0..entries.len()
        invariant
            forall|i: int| 0 <= i < entries@.len() ==> (#[trigger] entries@[i]).valid(),
            list@ == range_hands(entries@, board_mask, n as nat),
            are_live(list@, board_mask),
    {
        let entry: RangeEntry<S> = entries[n];
        assert(entries@[n as int].valid());
        if counts(entry.weight) {
            match entry.combo {
                Some(combo) => {
                    push_weighted_combo(&mut list, board_mask, combo, entry.class, entry.weight);
                },
                None => {
                    let hands: Vec<Combo> = entry.class.combos();
                    let ghost before = list@;
                    for k in 0..hands.len()
                        invariant
                            entry.class.valid(),
                            hands@ == entry.class.combos_spec(),
                            are_live(list@, board_mask),
                            list@ == with_hands(
                                before,
                                board_mask,
                                hands@,
                                entry.class,
                                entry.weight,
                                k as nat,
                            ),
                    {
                        proof {
                            class_hands_are_of_class(entry.class, k as int, 16);
                        }
                        push_weighted_combo(
                            &mut list,
                            board_mask,
                            hands[k],
                            entry.class,
                            entry.weight,
                        );
                    }
                },
            }
        }
    }
    list
}

/// The mask of a board.
pub fn board_mask(board: &[Card]) -> (r: u64)
    ensures
        r == mask_of(board@),
{
    let mut mask: u64 = 0;
    for i in 0..board.len()
        invariant
            mask == mask_of(board@.take(i as int)),
    {
        assert(board@.take(i + 1).drop_last() =~= board@.take(i as int));
        mask = mask | board[i].deck_mask();
    }
    assert(board@.take(board@.len() as int) =~= board@);
    mask
}

/// A deal: a hand for each player, its weight and that of it and all before it.
#[derive(Clone, Copy, Debug)]
pub struct LegalDeal<S> {
    pub oop_index: usize,
    pub ip_index: usize,
    pub weight: S,
    pub cumulative_weight: S,
}

/// The deals of one hand with each of the first `m` of the other player, before weights are added up.
pub open spec fn deal_row<S: Scalar>(
    oop: Seq<WeightedPostflopCombo<S>>,
    ip: Seq<WeightedPostflopCombo<S>>,
    i: int,
    m: nat,
) -> Seq<LegalDeal<S>>
    decreases m,
{
    if m == 0 {
        Seq::empty()
    } else {
        let front = deal_row(oop, ip, i, (m - 1) as nat);
        if oop[i].combo.mask & ip[m - 1].combo.mask == 0 {
            front.push(
                LegalDeal {
                    oop_index: i as usize,
                    ip_index: (m - 1) as usize,
                    weight: oop[i].weight.times_spec(ip[m - 1].weight),
                    cumulative_weight: S::zero_spec(),
                },
            )
        } else {
            front
        }
    }
}

/// The deals of each of the first `n` hands with those of the other player.
pub open spec fn deal_rows<S: Scalar>(
    oop: Seq<WeightedPostflopCombo<S>>,
    ip: Seq<WeightedPostflopCombo<S>>,
    n: nat,
) -> Seq<LegalDeal<S>>
    decreases n,
{
    if n == 0 {
        Seq::empty()
    } else {
        deal_rows(oop, ip, (n - 1) as nat) + deal_row(oop, ip, n - 1, ip.len())
    }
}

/// The weights of the first `n` deals added up.
pub open spec fn cumulative<S: Scalar>(deals: Seq<LegalDeal<S>>, n: nat) -> S
    decreases n,
{
    if n == 0 {
        S::zero_spec()
    } else {
        cumulative(deals, (n - 1) as nat).plus_spec(deals[n - 1].weight.max_spec(S::zero_spec()))
    }
}

/// Deals with the weights of each and all before it added up.
pub open spec fn added_up<S: Scalar>(deals: Seq<LegalDeal<S>>) -> Seq<LegalDeal<S>> {
    Seq::new(
        deals.len(),
        |i: int| LegalDeal { cumulative_weight: cumulative(deals, (i + 1) as nat), ..deals[i] },
    )
}

/// Deals with the weights of each and all before it added up.
pub fn with_cumulative_weights<S: Scalar>(deals: Vec<LegalDeal<S>>) -> (r: Vec<LegalDeal<S>>)
    ensures
        r@ == added_up(deals@),
{
    let mut total: S = S::zero();
    let mut list: Vec<LegalDeal<S>> = Vec::new();
    for i in 0..deals.len()
        invariant
            total == cumulative(deals@, i as nat),
            list@ =~= added_up(deals@).take(i as int),
    {
        let deal: LegalDeal<S> = deals[i];
        total = total.plus(deal.weight.max_of(S::zero()));
        list.push(
            LegalDeal {
                oop_index: deal.oop_index,
                ip_index: deal.ip_index,
                weight: deal.weight,
                cumulative_weight: total,
            },
        );
        assert(added_up(deals@).take(i + 1) =~= added_up(deals@).take(i as int).push(
            added_up(deals@)[i as int],
        ));
    }
    assert(added_up(deals@).take(deals@.len() as int) =~= added_up(deals@));
    list
}

/// The deals of two ranges.
pub open spec fn deals_spec<S: Scalar>(
    oop: Seq<WeightedPostflopCombo<S>>,
    ip: Seq<WeightedPostflopCombo<S>>,
) -> Seq<LegalDeal<S>> {
    added_up(deal_rows(oop, ip, oop.len()))
}

/// Whether a deal names two hands that share no card.
pub open spec fn can_be_dealt<S>(
    oop: Seq<WeightedPostflopCombo<S>>,
    ip: Seq<WeightedPostflopCombo<S>>,
    deal: LegalDeal<S>,
) -> bool {
    &&& deal.oop_index < oop.len()
    &&& deal.ip_index < ip.len()
    &&& oop[deal.oop_index as int].combo.mask & ip[deal.ip_index as int].combo.mask == 0
}

/// Whether all deals name two hands that share no card.
pub open spec fn are_deals<S>(
    oop: Seq<WeightedPostflopCombo<S>>,
    ip: Seq<WeightedPostflopCombo<S>>,
    deals: Seq<LegalDeal<S>>,
) -> bool {
    forall|k: int| 0 <= k < deals.len() ==> can_be_dealt(oop, ip, #[trigger] deals[k])
}

/// The deals of two ranges: every two hands that share no card.
pub fn legal_deals<S: Scalar>(
    oop_range: &[WeightedPostflopCombo<S>],
    ip_range: &[WeightedPostflopCombo<S>],
) -> (r: Vec<LegalDeal<S>>)
    ensures
        r@ == deals_spec(oop_range@, ip_range@),
        are_deals(oop_range@, ip_range@, r@),
{
    let mut deals: Vec<LegalDeal<S>> = Vec::new();
    for i in 0..oop_range.len()
        invariant
            deals@ == deal_rows(oop_range@, ip_range@, i as nat),
            are_deals(oop_range@, ip_range@, deals@),
    {
        let ghost before = deals@;
        for m in 0..ip_range.len()
            invariant
                i < oop_range@.len(),
                are_deals(oop_range@, ip_range@, deals@),
                deals@ =~= before + deal_row(oop_range@, ip_range@, i as int, m as nat),
        {
            if oop_range[i].combo.mask & ip_range[m].combo.mask == 0 {
                deals.push(
                    LegalDeal {
                        oop_index: i,
                        ip_index: m,
                        weight: oop_range[i].weight.times(ip_range[m].weight),
                        cumulative_weight: S::zero(),
                    },
                );
            }
        }
    }
    let ghost bare = deals@;
    let list: Vec<LegalDeal<S>> = with_cumulative_weights(deals);
    assert forall|k: int| 0 <= k < list@.len() implies can_be_dealt(
        oop_range@,
        ip_range@,
        #[trigger] list@[k],
    ) by {
        assert(can_be_dealt(oop_range@, ip_range@, bare[k]));
    }
    list
}

/// Whether a deal gives the players the hands that are looked for.
pub open spec fn is_focused<S>(
    oop: Seq<WeightedPostflopCombo<S>>,
    ip: Seq<WeightedPostflopCombo<S>>,
    deal: LegalDeal<S>,
    oop_mask: Option<u64>,
    ip_mask: Option<u64>,
) -> bool {
    &&& oop_mask is Some ==> oop[deal.oop_index as int].combo.mask == oop_mask->0
    &&& ip_mask is Some ==> ip[deal.ip_index as int].combo.mask == ip_mask->0
}

/// Those of the first `n` deals that give the players the hands that are looked for.
pub open spec fn focused_rows<S: Scalar>(
    oop: Seq<WeightedPostflopCombo<S>>,
    ip: Seq<WeightedPostflopCombo<S>>,
    deals: Seq<LegalDeal<S>>,
    oop_mask: Option<u64>,
    ip_mask: Option<u64>,
    n: nat,
) -> Seq<LegalDeal<S>>
    decreases n,
{
    if n == 0 {
        Seq::empty()
    } else {
        let front = focused_rows(oop, ip, deals, oop_mask, ip_mask, (n - 1) as nat);
        if is_focused(oop, ip, deals[n - 1], oop_mask, ip_mask) {
            front.push(LegalDeal { cumulative_weight: S::zero_spec(), ..deals[n - 1] })
        } else {
            front
        }
    }
}

/// The deals that give the players the hands that are looked for, none where none is.
pub open spec fn focused_spec<S: Scalar>(
    oop: Seq<WeightedPostflopCombo<S>>,
    ip: Seq<WeightedPostflopCombo<S>>,
    deals: Seq<LegalDeal<S>>,
    oop_mask: Option<u64>,
    ip_mask: Option<u64>,
) -> Seq<LegalDeal<S>> {
    if oop_mask is None && ip_mask is None {
        Seq::empty()
    } else {
        added_up(focused_rows(oop, ip, deals, oop_mask, ip_mask, deals.len()))
    }
}

/// The deals that give the players the hands that are looked for, none where none is.
pub fn focused_deals<S: Scalar>(
    oop_range: &[WeightedPostflopCombo<S>],
    ip_range: &[WeightedPostflopCombo<S>],
    deals: &[LegalDeal<S>],
    focused_oop_mask: Option<u64>,
    focused_ip_mask: Option<u64>,
) -> (r: Vec<LegalDeal<S>>)
    requires
        are_deals(oop_range@, ip_range@, deals@),
    ensures
        r@ == focused_spec(oop_range@, ip_range@, deals@, focused_oop_mask, focused_ip_mask),
        are_deals(oop_range@, ip_range@, r@),
{
    if focused_oop_mask.is_none() && focused_ip_mask.is_none() {
        return Vec::new();
    }
    let mut list: Vec<LegalDeal<S>> = Vec::new();
    for n in 0..deals.len()
        invariant
            are_deals(oop_range@, ip_range@, deals@),
            are_deals(oop_range@, ip_range@, list@),
            list@ == focused_rows(
                oop_range@,
                ip_range@,
                deals@,
                focused_oop_mask,
                focused_ip_mask,
                n as nat,
            ),
    {
        let deal: LegalDeal<S> = deals[n];
        assert(can_be_dealt(oop_range@, ip_range@, deals@[n as int]));
        let oop_fits: bool = match focused_oop_mask {
            Some(mask) => oop_range[deal.oop_index].combo.mask == mask,
            None => true,
        };
        let ip_fits: bool = match focused_ip_mask {
            Some(mask) => ip_range[deal.ip_index].combo.mask == mask,
            None => true,
        };
        if oop_fits && ip_fits {
            list.push(
                LegalDeal {
                    oop_index: deal.oop_index,
                    ip_index: deal.ip_index,
                    weight: deal.weight,
                    cumulative_weight: S::zero(),
                },
            );
        }
    }
    let ghost bare = list@;
    let sums: Vec<LegalDeal<S>> = with_cumulative_weights(list);
    assert forall|k: int| 0 <= k < sums@.len() implies can_be_dealt(
        oop_range@,
        ip_range@,
        #[trigger] sums@[k],
    ) by {
        assert(can_be_dealt(oop_range@, ip_range@, bare[k]));
    }
    sums
}

/// The start of the numbers that are drawn.
pub const DRAW_START: u64 = 0x517c_c1b7_2722_0a95;

/// The number drawn in an iteration.
pub open spec fn drawn_number(iteration: int) -> u64 {
    scattered((iteration + DRAW_START) as u64)
}

/// The number drawn in an iteration.
pub fn deterministic_u64(iteration: usize) -> (r: u64)
    requires
        iteration + DRAW_START <= u64::MAX,
    ensures
        r == drawn_number(iteration as int),
{
    scatter(iteration as u64 + DRAW_START)
}

/// The place drawn in an iteration.
pub open spec fn drawn_place(iteration: int, len: int) -> int {
    (drawn_number(iteration) as usize) as int % len
}

/// The place drawn in an iteration.
pub fn sampled_index(iteration: usize, len: usize) -> (r: usize)
    requires
        len > 0,
        iteration + DRAW_START <= u64::MAX,
    ensures
        r == drawn_place(iteration as int, len as int),
        r < len,
{
    (deterministic_u64(iteration) as usize) % len
}

/// The share of the largest number drawn in an iteration.
pub open spec fn drawn_unit<S: Scalar>(iteration: int) -> S {
    S::from_u64_spec(drawn_number(iteration)).over_spec(S::from_u64_spec(u64::MAX))
}

/// The share of the largest number drawn in an iteration.
pub fn deterministic_unit<S: Scalar>(iteration: usize) -> (r: S)
    requires
        iteration + DRAW_START <= u64::MAX,
    ensures
        r == drawn_unit::<S>(iteration as int),
{
    S::from_u64(deterministic_u64(iteration)).over(S::from_u64(u64::MAX))
}

/// The place that halving finds for a threshold: where weights before it are below the threshold and
/// those from it on are not.
pub open spec fn halved<S: Scalar>(deals: Seq<LegalDeal<S>>, threshold: S, low: int, high: int) -> int
    decreases high - low,
{
    if low < high {
        let mid = (low + high) / 2;
        if threshold.exceeds_spec(deals[mid].cumulative_weight) {
            halved(deals, threshold, mid + 1, high)
        } else {
            halved(deals, threshold, low, mid)
        }
    } else {
        low
    }
}

/// The place of the deal drawn in an iteration: by weight, or each as likely where no weight counts.
pub open spec fn drawn_deal<S: Scalar>(deals: Seq<LegalDeal<S>>, iteration: int) -> int {
    let total = deals.last().cumulative_weight;
    if S::zero_spec().at_least_spec(total) {
        drawn_place(iteration, deals.len() as int)
    } else {
        let place = halved(
            deals,
            drawn_unit::<S>(iteration).times_spec(total),
            0,
            deals.len() as int,
        );
        if place < deals.len() - 1 {
            place
        } else {
            deals.len() - 1
        }
    }
}

/// The deal drawn in an iteration.
pub fn sample_weighted_deal<S: Scalar>(iteration: usize, deals: &[LegalDeal<S>]) -> (r: (
    usize,
    usize,
))
    requires
        deals@.len() > 0,
        iteration + DRAW_START <= u64::MAX,
    ensures
        0 <= drawn_deal(deals@, iteration as int) < deals@.len(),
        r.0 == deals@[drawn_deal(deals@, iteration as int)].oop_index,
        r.1 == deals@[drawn_deal(deals@, iteration as int)].ip_index,
{
    let count: usize = deals.len();
    let total: S = deals[count - 1].cumulative_weight;
    if S::zero().at_least(total) {
        let deal: LegalDeal<S> = deals[sampled_index(iteration, count)];
        return (deal.oop_index, deal.ip_index);
    }
    let threshold: S = deterministic_unit::<S>(iteration).times(total);
    let mut low: usize = 0;
    let mut high: usize = count;
    while low < high
        invariant
            low <= high <= count,
            count == deals@.len(),
            halved(deals@, threshold, low as int, high as int) == halved(
                deals@,
                threshold,
                0,
                count as int,
            ),
        decreases high - low,
    {
        let mid: usize = low + (high - low) / 2;
        assert(mid == (low + high) / 2);
        if threshold.exceeds(deals[mid].cumulative_weight) {
            low = mid + 1;
        } else {
            high = mid;
        }
    }
    let place: usize = if low < count - 1 {
        low
    } else {
        count - 1
    };
    let deal: LegalDeal<S> = deals[place];
    (deal.oop_index, deal.ip_index)
}

/// Whether an iteration draws from the deals that are looked for.
pub open spec fn draws_focused<S: Scalar>(iteration: int, rate: S) -> bool {
    if S::zero_spec().at_least_spec(rate) {
        false
    } else if rate.at_least_spec(S::one_spec()) {
        true
    } else {
        drawn_place(iteration, 10_000) < rate.times_spec(S::from_u32_spec(10_000)).round_u32_spec()
    }
}

/// Whether an iteration draws from the deals that are looked for.
pub fn should_sample_focused<S: Scalar>(iteration: usize, focused_sampling_rate: S) -> (r: bool)
    requires
        iteration + DRAW_START <= u64::MAX,
    ensures
        r == draws_focused(iteration as int, focused_sampling_rate),
{
    if S::zero().at_least(focused_sampling_rate) {
        return false;
    }
    if focused_sampling_rate.at_least(S::one()) {
        return true;
    }
    let threshold: u32 = focused_sampling_rate.times(S::from_u32(10_000)).round_u32();
    sampled_index(iteration, 10_000) < threshold as usize
}

/// The hands dealt in an iteration.
pub open spec fn dealt<S: Scalar>(
    deals: Seq<LegalDeal<S>>,
    focused: Seq<LegalDeal<S>>,
    rate: S,
    iteration: int,
) -> (usize, usize) {
    let pool = if focused.len() > 0 && draws_focused(iteration, rate) {
        focused
    } else {
        deals
    };
    let deal = pool[drawn_deal(pool, iteration)];
    (deal.oop_index, deal.ip_index)
}

/// The hands dealt in an iteration.
pub fn deal_for<S: Scalar>(
    deals: &[LegalDeal<S>],
    focused: &[LegalDeal<S>],
    rate: S,
    iteration: usize,
    oop_range: &[WeightedPostflopCombo<S>],
    ip_range: &[WeightedPostflopCombo<S>],
) -> (r: (usize, usize))
    requires
        deals@.len() > 0,
        iteration + DRAW_START <= u64::MAX,
        are_deals(oop_range@, ip_range@, deals@),
        are_deals(oop_range@, ip_range@, focused@),
    ensures
        r == dealt(deals@, focused@, rate, iteration as int),
        r.0 < oop_range@.len(),
        r.1 < ip_range@.len(),
        oop_range@[r.0 as int].combo.mask & ip_range@[r.1 as int].combo.mask == 0,
{
    if focused.len() > 0 && should_sample_focused(iteration, rate) {
        let deal: (usize, usize) = sample_weighted_deal(iteration, focused);
        assert(can_be_dealt(
            oop_range@,
            ip_range@,
            focused@[drawn_deal(focused@, iteration as int)],
        ));
        deal
    } else {
        let deal: (usize, usize) = sample_weighted_deal(iteration, deals);
        assert(can_be_dealt(oop_range@, ip_range@, deals@[drawn_deal(deals@, iteration as int)]));
        deal
    }
}

} // verus!
