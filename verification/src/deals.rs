//! Unordered pairs, in ascending order.
use vstd::prelude::*;
use crate::cards::{all_different, deck_spec, deck_without, Card, card_position_round_trip};

verus! {

/// The pairs of positions below `n` whose smaller one is below `m`, in ascending order.
pub open spec fn pair_rows(n: nat, m: nat) -> Seq<(usize, usize)>
    decreases m,
{
    if m == 0 {
        Seq::empty()
    } else {
        pair_rows(n, (m - 1) as nat) + pair_row(n, (m - 1) as nat)
    }
}

/// The pairs of one position with each later one.
pub open spec fn pair_row(n: nat, i: nat) -> Seq<(usize, usize)> {
    if i < n {
        Seq::new((n - 1 - i) as nat, |k: int| (i as usize, (i + 1 + k) as usize))
    } else {
        Seq::empty()
    }
}

/// All pairs of different positions below `n`, smaller position first, in ascending order.
pub open spec fn pairs(n: nat) -> Seq<(usize, usize)> {
    pair_rows(n, n)
}

/// How many pairs have a smaller position below `m`.
pub open spec fn row_start(n: nat, m: nat) -> nat
    decreases m,
{
    if m == 0 {
        0
    } else {
        row_start(n, (m - 1) as nat) + (if m <= n {
            (n - m) as nat
        } else {
            0
        })
    }
}

pub proof fn lemma_pair_rows(n: nat, m: nat)
    requires
        m <= n,
        n <= usize::MAX,
    ensures
        pair_rows(n, m).len() == row_start(n, m),
        forall|k: int|
            0 <= k < pair_rows(n, m).len() ==> {
                &&& (#[trigger] pair_rows(n, m)[k]).0 < m
                &&& pair_rows(n, m)[k].0 < pair_rows(n, m)[k].1 < n
                &&& k == row_start(n, pair_rows(n, m)[k].0 as nat) + (pair_rows(n, m)[k].1
                    - pair_rows(n, m)[k].0 - 1)
            },
        2 * row_start(n, m) == m * (2 * n - 1 - m),
    decreases m,
{
    if m > 0 {
        lemma_pair_rows(n, (m - 1) as nat);
        let front = pair_rows(n, (m - 1) as nat);
        let row = pair_row(n, (m - 1) as nat);
        assert forall|k: int| 0 <= k < pair_rows(n, m).len() implies {
            &&& (#[trigger] pair_rows(n, m)[k]).0 < m
            &&& pair_rows(n, m)[k].0 < pair_rows(n, m)[k].1 < n
            &&& k == row_start(n, pair_rows(n, m)[k].0 as nat) + (pair_rows(n, m)[k].1 - pair_rows(
                n,
                m,
            )[k].0 - 1)
        } by {
            if k < front.len() {
                assert(pair_rows(n, m)[k] == front[k]);
            } else {
                assert(pair_rows(n, m)[k] == row[k - front.len()]);
            }
        }
        assert(m * (2 * n - 1 - m) == (m - 1) * (2 * n - 1 - (m - 1)) + 2 * (n - m))
            by (nonlinear_arith);
    } else {
        assert(0 * (2 * n - 1 - 0) == 0);
    }
}

/// The pairs below `n` number n(n-1)/2; each pair of different positions occurs, and only once.
pub proof fn pairs_are_all(n: nat)
    requires
        n <= 0xffff,
    ensures
        2 * pairs(n).len() == n * (n - 1),
        pairs(n).len() <= 0x7fff_ffff,
        forall|k: int|
            0 <= k < pairs(n).len() ==> (#[trigger] pairs(n)[k]).0 < pairs(n)[k].1 < n,
        forall|k: int, l: int|
            0 <= k < pairs(n).len() && 0 <= l < pairs(n).len() && k != l ==> #[trigger] pairs(n)[k]
                != #[trigger] pairs(n)[l],
        forall|i: usize, j: usize| i < j < n ==> #[trigger] pairs(n).contains((i, j)),
{
    lemma_pair_rows(n, n);
    assert(n * (2 * n - 1 - n) == n * (n - 1));
    assert(n * (n - 1) <= 0xffff * 0xffff) by (nonlinear_arith)
        requires
            0 <= n <= 0xffff,
    ;
    assert forall|i: usize, j: usize| i < j < n implies #[trigger] pairs(n).contains((i, j)) by {
        lemma_pair_rows_hold(n, n, i, j);
    }
}

proof fn lemma_pair_rows_hold(n: nat, m: nat, i: usize, j: usize)
    requires
        m <= n,
        i < j < n,
        i < m,
        n <= 0xffff,
    ensures
        pair_rows(n, m).contains((i, j)),
    decreases m,
{
    let front = pair_rows(n, (m - 1) as nat);
    let row = pair_row(n, (m - 1) as nat);
    if i < m - 1 {
        lemma_pair_rows_hold(n, (m - 1) as nat, i, j);
        let k = choose|k: int| 0 <= k < front.len() && front[k] == (i, j);
        assert(pair_rows(n, m)[k] == (i, j));
    } else {
        let k = front.len() + (j - i - 1);
        assert(row[j - i - 1] == (i, j));
        assert(pair_rows(n, m)[k] == (i, j));
    }
}

/// All pairs of different positions below `n`, smaller position first, in ascending order.
pub fn index_pairs(n: usize) -> (r: Vec<(usize, usize)>)
    requires
        n <= 0xffff,
    ensures
        r@ == pairs(n as nat),
{
    let mut list: Vec<(usize, usize)> = Vec::new();
    let mut i: usize = 0;
    while i < n
        invariant
            i <= n <= 0xffff,
            list@ == pair_rows(n as nat, i as nat),
        decreases n - i,
    {
        let ghost before = list@;
        let mut j: usize = i + 1;
        while j < n
            invariant
                i < j <= n <= 0xffff,
                before == pair_rows(n as nat, i as nat),
                list@ == before + pair_row(n as nat, i as nat).take(j - i - 1),
            decreases n - j,
        {
            list.push((i, j));
            proof {
                let row = pair_row(n as nat, i as nat);
                assert(row[j - i - 1] == (i, j));
                assert(row.take(j - i) =~= row.take(j - i - 1).push((i, j)));
                assert(list@ =~= before + row.take(j - i));
            }
            j = j + 1;
        }
        proof {
            let row = pair_row(n as nat, i as nat);
            assert(row.take(row.len() as int) =~= row);
        }
        i = i + 1;
    }
    list
}

/// Removing cards from the deck leaves it in ascending order, without repetition, with every card that
/// was not removed; and as many fewer as were removed.
pub proof fn deck_without_facts(cards: Seq<Card>)
    ensures
        deck_without(cards).len() <= 52,
        forall|i: int|
            0 <= i < deck_without(cards).len() ==> !cards.contains(#[trigger] deck_without(cards)[i]),
        forall|i: int, j: int|
            0 <= i < j < deck_without(cards).len() ==> (#[trigger] deck_without(cards)[i]).id() < (
            #[trigger] deck_without(cards)[j]).id(),
        forall|card: Card| !cards.contains(card) ==> #[trigger] deck_without(cards).contains(card),
        all_different(cards) ==> deck_without(cards).len() == 52 - cards.len(),
{
    lemma_kept(cards, 52);
    assert(deck_spec().take(52) =~= deck_spec());
    let left = deck_without(cards);
    assert forall|card: Card| !cards.contains(card) implies #[trigger] left.contains(card) by {
        card_position_round_trip(card, 0);
    }
    assert forall|i: int, j: int| 0 <= i < j < left.len() implies (#[trigger] left[i]).id() < (
    #[trigger] left[j]).id() by {}
    if all_different(cards) {
        lemma_removed_count(cards, 52);
        lemma_all_below(cards);
    }
}

spec fn kept(cards: Seq<Card>, n: int) -> Seq<Card> {
    deck_spec().take(n).filter(|card: Card| !cards.contains(card))
}

proof fn lemma_kept(cards: Seq<Card>, n: int)
    requires
        0 <= n <= 52,
    ensures
        kept(cards, n).len() <= n,
        forall|i: int|
            0 <= i < kept(cards, n).len() ==> !cards.contains(#[trigger] kept(cards, n)[i]) && kept(
                cards,
                n,
            )[i].id() < n,
        forall|i: int, j: int|
            0 <= i < j < kept(cards, n).len() ==> (#[trigger] kept(cards, n)[i]).id() < (
            #[trigger] kept(cards, n)[j]).id(),
        forall|card: Card|
            !cards.contains(card) && card.id() < n ==> #[trigger] kept(cards, n).contains(card),
    decreases n,
{
    reveal(Seq::filter);
    if n > 0 {
        lemma_kept(cards, n - 1);
        assert(deck_spec().take(n).drop_last() =~= deck_spec().take(n - 1));
        let last = Card::at(n - 1);
        card_position_round_trip(last, n - 1);
        assert(deck_spec().take(n).last() == last);
        let front = kept(cards, n - 1);
        let whole = kept(cards, n);
        assert forall|card: Card| !cards.contains(card) && card.id() < n implies #[trigger] whole.contains(
            card,
        ) by {
            card_position_round_trip(card, 0);
            if card.id() < n - 1 {
                assert(front.contains(card));
                let k = choose|k: int| 0 <= k < front.len() && front[k] == card;
                assert(whole[k] == card);
            } else {
                assert(card == last);
                assert(whole[whole.len() - 1] == card);
            }
        }
    }
}

/// The cards below a deck position.
spec fn below(cards: Seq<Card>, n: int) -> Seq<Card> {
    cards.filter(|card: Card| card.id() < n)
}

proof fn lemma_removed_count(cards: Seq<Card>, n: int)
    requires
        0 <= n <= 52,
        all_different(cards),
    ensures
        kept(cards, n).len() + below(cards, n).len() == n,
    decreases n,
{
    reveal(Seq::filter);
    if n == 0 {
        lemma_none_below(cards);
    } else {
        lemma_removed_count(cards, n - 1);
        assert(deck_spec().take(n).drop_last() =~= deck_spec().take(n - 1));
        let last = Card::at(n - 1);
        card_position_round_trip(last, n - 1);
        lemma_below_step(cards, n);
    }
}

proof fn lemma_none_below(cards: Seq<Card>)
    ensures
        below(cards, 0).len() == 0,
    decreases cards.len(),
{
    reveal(Seq::filter);
    if cards.len() > 0 {
        lemma_none_below(cards.drop_last());
        card_position_round_trip(cards.last(), 0);
    }
}

proof fn lemma_all_below(cards: Seq<Card>)
    ensures
        below(cards, 52) == cards,
    decreases cards.len(),
{
    reveal(Seq::filter);
    if cards.len() > 0 {
        lemma_all_below(cards.drop_last());
        card_position_round_trip(cards.last(), 0);
        assert(cards.drop_last().push(cards.last()) =~= cards);
    }
}

proof fn lemma_below_step(cards: Seq<Card>, n: int)
    requires
        0 < n <= 52,
        all_different(cards),
    ensures
        below(cards, n).len() == below(cards, n - 1).len() + (if cards.contains(Card::at(n - 1)) {
            1nat
        } else {
            0
        }),
    decreases cards.len(),
{
    reveal(Seq::filter);
    if cards.len() > 0 {
        let front = cards.drop_last();
        let last = cards.last();
        assert(all_different(front)) by {
            assert forall|i: int, j: int| 0 <= i < j < front.len() implies #[trigger] front[i]
                != #[trigger] front[j] by {
                assert(cards[i] != cards[j]);
            }
        }
        lemma_below_step(front, n);
        card_position_round_trip(last, n - 1);
        card_position_round_trip(Card::at(n - 1), n - 1);
        let c = Card::at(n - 1);
        if last == c {
            assert(cards[cards.len() - 1] == c);
            assert(cards.contains(c));
            assert(!front.contains(c)) by {
                if front.contains(c) {
                    let k = choose|k: int| 0 <= k < front.len() && front[k] == c;
                    assert(cards[k] != cards[cards.len() - 1]);
                }
            }
        } else {
            assert(last.id() != n - 1) by {
                crate::cards::card_ids_differ(last, c);
            }
            if cards.contains(c) {
                let k = choose|k: int| 0 <= k < cards.len() && cards[k] == c;
                assert(front[k] == c);
            }
            if front.contains(c) {
                let k = choose|k: int| 0 <= k < front.len() && front[k] == c;
                assert(cards[k] == c);
            }
        }
    }
}

} // verus!
