//! How boards go on where no symmetry makes two of them alike: every class holds one board, and every hand
//! that can be held now can be held on as many boards to come.
use vstd::prelude::*;
use crate::boards::{
    best_pair_permutation, best_pair_place, board_classes, completions, member_codes, pair_class,
    pair_classes, pair_members, pair_order,
};
use crate::cards::{all_different, card_ids_differ, card_position_round_trip, deck_without, Card};
use crate::deals::{deck_without_facts, pair_row, pair_rows, pairs, pairs_are_all};
use crate::isomorphism::{
    best_permutation, best_place, class_card, classes_below, identity_is_symmetry, is_symmetry,
    members_below, symmetries, symmetries_facts, SuitPermutation,
};
use crate::range::ComboWeight;
use crate::scalar::Scalar;

verus! {

/// The code of the permutation that changes nothing.
pub open spec fn plain_codes() -> Seq<u8> {
    seq![SuitPermutation::identity_spec().code_spec() as u8]
}

/// Whether only the permutation that changes nothing is listed.
spec fn change_nothing(permutations: Seq<SuitPermutation>) -> bool {
    &&& permutations.len() > 0
    &&& forall|i: int|
        0 <= i < permutations.len() ==> #[trigger] permutations[i] == SuitPermutation::identity_spec()
}

proof fn lemma_best(permutations: Seq<SuitPermutation>, card: Card, n: nat)
    requires
        n > 0,
    ensures
        best_place(permutations, card, n) < n,
    decreases n,
{
    if n > 1 {
        lemma_best(permutations, card, (n - 1) as nat);
    }
}

proof fn lemma_best_pair(permutations: Seq<SuitPermutation>, a: Card, b: Card, n: nat)
    requires
        n > 0,
    ensures
        best_pair_place(permutations, a, b, n) < n,
    decreases n,
{
    if n > 1 {
        lemma_best_pair(permutations, a, b, (n - 1) as nat);
    }
}

proof fn lemma_one_member(permutations: Seq<SuitPermutation>, deck: Seq<Card>, k: int, n: nat)
    requires
        change_nothing(permutations),
        n <= deck.len(),
        0 <= k < deck.len(),
        forall|i: int, j: int|
            0 <= i < j < deck.len() ==> (#[trigger] deck[i]).id() < (#[trigger] deck[j]).id(),
    ensures
        members_below(permutations, deck, deck[k], n).len() == (if k < n {
            1nat
        } else {
            0
        }),
        k < n ==> members_below(permutations, deck, deck[k], n)[0].permutation_to_representative
            == SuitPermutation::identity_spec(),
    decreases n,
{
    if n > 0 {
        lemma_one_member(permutations, deck, k, (n - 1) as nat);
        let card = deck[n - 1];
        lemma_best(permutations, card, permutations.len());
        assert(best_permutation(permutations, card) == SuitPermutation::identity_spec());
        assert(class_card(permutations, card) == card);
        if k < n - 1 {
            assert(deck[k].id() < deck[n - 1].id());
        } else if k > n - 1 {
            assert(deck[n - 1].id() < deck[k].id());
        }
    }
}

proof fn lemma_plain_cards(permutations: Seq<SuitPermutation>, deck: Seq<Card>, n: nat)
    requires
        change_nothing(permutations),
        n <= deck.len(),
        forall|i: int, j: int|
            0 <= i < j < deck.len() ==> (#[trigger] deck[i]).id() < (#[trigger] deck[j]).id(),
    ensures
        classes_below(permutations, deck, n).len() == n,
        forall|k: int|
            0 <= k < n ==> (#[trigger] classes_below(permutations, deck, n)[k]).representative
                == deck[k] && member_codes(classes_below(permutations, deck, n)[k].members)
                == plain_codes(),
    decreases n,
{
    if n > 0 {
        lemma_plain_cards(permutations, deck, (n - 1) as nat);
        lemma_one_member(permutations, deck, n - 1, deck.len());
        let front = classes_below(permutations, deck, (n - 1) as nat);
        let whole = classes_below(permutations, deck, n);
        assert forall|k: int| 0 <= k < n implies (#[trigger] whole[k]).representative == deck[k]
            && member_codes(whole[k].members) == plain_codes() by {
            if k < n - 1 {
                assert(whole[k] == front[k]);
            } else {
                assert(member_codes(whole[k].members) =~= plain_codes());
            }
        }
    }
}

/// Pairs of cards, smaller card first, have different numbers.
proof fn lemma_pair_order(a: Card, b: Card, c: Card, d: Card)
    requires
        pair_order((a, b)) == pair_order((c, d)),
    ensures
        a == c,
        b == d,
{
    card_position_round_trip(a, 0);
    card_position_round_trip(b, 0);
    card_position_round_trip(c, 0);
    card_position_round_trip(d, 0);
    card_ids_differ(a, c);
    card_ids_differ(b, d);
}

proof fn lemma_one_pair(permutations: Seq<SuitPermutation>, deck: Seq<Card>, k: int, n: nat)
    requires
        change_nothing(permutations),
        deck.len() <= 52,
        n <= pairs(deck.len()).len(),
        0 <= k < pairs(deck.len()).len(),
        forall|i: int, j: int|
            0 <= i < j < deck.len() ==> (#[trigger] deck[i]).id() < (#[trigger] deck[j]).id(),
    ensures
        ({
            let (i, j) = pairs(deck.len())[k];
            pair_members(permutations, deck, pair_order((deck[i as int], deck[j as int])), n)
                == (if k < n {
                plain_codes()
            } else {
                Seq::empty()
            })
        }),
    decreases n,
{
    let all = pairs(deck.len());
    pairs_are_all(deck.len());
    if n > 0 {
        lemma_one_pair(permutations, deck, k, (n - 1) as nat);
        let (i, j) = all[k];
        let (x, y) = all[n - 1];
        let (a, b) = (deck[x as int], deck[y as int]);
        lemma_best_pair(permutations, a, b, permutations.len());
        assert(best_pair_permutation(permutations, a, b) == SuitPermutation::identity_spec());
        assert(a.id() < b.id());
        assert(pair_class(permutations, a, b) == pair_order((a, b)));
        if k != n - 1 && pair_order((a, b)) == pair_order((deck[i as int], deck[j as int])) {
            lemma_pair_order(a, b, deck[i as int], deck[j as int]);
            assert(x == i) by {
                if x < i {
                    assert(deck[x as int].id() < deck[i as int].id());
                } else if i < x {
                    assert(deck[i as int].id() < deck[x as int].id());
                }
            }
            assert(y == j) by {
                if y < j {
                    assert(deck[y as int].id() < deck[j as int].id());
                } else if j < y {
                    assert(deck[j as int].id() < deck[y as int].id());
                }
            }
            assert(all[k] != all[n - 1]);
        }
        if k == n - 1 {
            assert(Seq::<u8>::empty().push(SuitPermutation::identity_spec().code_spec() as u8)
                =~= plain_codes());
        }
    }
}

proof fn lemma_plain_pairs(
    permutations: Seq<SuitPermutation>,
    board: Seq<Card>,
    deck: Seq<Card>,
    n: nat,
)
    requires
        change_nothing(permutations),
        deck.len() <= 52,
        n <= pairs(deck.len()).len(),
        forall|i: int, j: int|
            0 <= i < j < deck.len() ==> (#[trigger] deck[i]).id() < (#[trigger] deck[j]).id(),
    ensures
        pair_classes(permutations, board, deck, n).len() == n,
        forall|k: int|
            0 <= k < n ==> (#[trigger] pair_classes(permutations, board, deck, n)[k]).board
                == board.push(deck[pairs(deck.len())[k].0 as int]).push(
                deck[pairs(deck.len())[k].1 as int],
            ) && pair_classes(permutations, board, deck, n)[k].codes == plain_codes(),
    decreases n,
{
    if n > 0 {
        lemma_plain_pairs(permutations, board, deck, (n - 1) as nat);
        lemma_one_pair(permutations, deck, n - 1, pairs(deck.len()).len());
        let front = pair_classes(permutations, board, deck, (n - 1) as nat);
        let whole = pair_classes(permutations, board, deck, n);
        assert forall|k: int| 0 <= k < n implies (#[trigger] whole[k]).board == board.push(
            deck[pairs(deck.len())[k].0 as int],
        ).push(deck[pairs(deck.len())[k].1 as int]) && whole[k].codes == plain_codes() by {
            if k < n - 1 {
                assert(whole[k] == front[k]);
            }
        }
    }
}

/// Where the only symmetry is the one that changes nothing, every finished board to come is a class of its
/// own, and so is a board that is finished.
pub proof fn boards_stand_alone<S: Scalar>(
    board: Seq<Card>,
    oop: Seq<ComboWeight<S>>,
    ip: Seq<ComboWeight<S>>,
)
    requires
        3 <= board.len() <= 5,
        board.len() == 5 || forall|permutation: SuitPermutation|
            permutation.wf() && #[trigger] is_symmetry(board, oop, ip, permutation) ==> permutation
                == SuitPermutation::identity_spec(),
    ensures
        board_classes(board, oop, ip).len() == completions(board).len(),
        forall|k: int|
            0 <= k < completions(board).len() ==> (#[trigger] board_classes(board, oop, ip)[k]).board
                == completions(board)[k] && board_classes(board, oop, ip)[k].codes == plain_codes(),
{
    let list = symmetries(board, oop, ip);
    let deck = deck_without(board);
    identity_is_symmetry(board, oop, ip);
    symmetries_facts(board, oop, ip, 256);
    assert(board.len() < 5 ==> change_nothing(list)) by {
        assert forall|i: int| 0 <= i < list.len() && board.len() < 5 implies #[trigger] list[i]
            == SuitPermutation::identity_spec() by {
            assert(list[i].wf() && is_symmetry(board, oop, ip, list[i]));
        }
    }
    deck_without_facts(board);
    if board.len() == 4 {
        lemma_plain_cards(list, deck, deck.len());
    } else if board.len() == 3 {
        lemma_plain_pairs(list, board, deck, pairs(deck.len()).len());
    }
}

/// Whether a hand holds no card of a board.
pub open spec fn is_clear(board: Seq<Card>, first: Card, second: Card) -> bool {
    !board.contains(first) && !board.contains(second)
}

/// How many of the first `n` boards a hand holds no card of.
pub open spec fn clear_boards(boards: Seq<Seq<Card>>, first: Card, second: Card, n: nat) -> nat
    decreases n,
{
    if n == 0 {
        0
    } else {
        clear_boards(boards, first, second, (n - 1) as nat) + if is_clear(
            boards[n - 1],
            first,
            second,
        ) {
            1nat
        } else {
            0
        }
    }
}

/// How many cards of a deck, from one place to another, a hand does not hold.
spec fn free_cards(deck: Seq<Card>, first: Card, second: Card, from: int, to: int) -> nat
    decreases to - from,
{
    if to <= from {
        0
    } else {
        free_cards(deck, first, second, from, to - 1) + if deck[to - 1] != first && deck[to - 1]
            != second {
            1nat
        } else {
            0
        }
    }
}

proof fn lemma_free_from_front(deck: Seq<Card>, first: Card, second: Card, from: int, to: int)
    requires
        from < to,
    ensures
        free_cards(deck, first, second, from, to) == free_cards(deck, first, second, from + 1, to)
            + if deck[from] != first && deck[from] != second {
            1nat
        } else {
            0
        },
    decreases to - from,
{
    if from + 1 < to {
        lemma_free_from_front(deck, first, second, from, to - 1);
    } else {
        assert(free_cards(deck, first, second, from, to - 1) == 0);
        assert(free_cards(deck, first, second, from + 1, to) == 0);
    }
}

/// A deck has two cards that a hand of two of them holds.
proof fn lemma_free_of_deck(deck: Seq<Card>, a: int, b: int, n: int)
    requires
        0 <= a < deck.len(),
        0 <= b < deck.len(),
        a != b,
        0 <= n <= deck.len(),
        forall|i: int, j: int|
            0 <= i < j < deck.len() ==> (#[trigger] deck[i]).id() < (#[trigger] deck[j]).id(),
    ensures
        free_cards(deck, deck[a], deck[b], 0, n) == n - (if a < n {
            1int
        } else {
            0
        }) - (if b < n {
            1int
        } else {
            0
        }),
    decreases n,
{
    if n > 0 {
        lemma_free_of_deck(deck, a, b, n - 1);
        if a < n - 1 {
            assert(deck[a].id() < deck[n - 1].id());
        } else if a > n - 1 {
            assert(deck[n - 1].id() < deck[a].id());
        }
        if b < n - 1 {
            assert(deck[b].id() < deck[n - 1].id());
        } else if b > n - 1 {
            assert(deck[n - 1].id() < deck[b].id());
        }
    }
}

/// How many of the first `n` pairs of cards a hand holds neither card of.
spec fn free_pairs(
    deck: Seq<Card>,
    first: Card,
    second: Card,
    list: Seq<(usize, usize)>,
    n: nat,
) -> nat
    decreases n,
{
    if n == 0 {
        0
    } else {
        let (i, j) = list[n - 1];
        free_pairs(deck, first, second, list, (n - 1) as nat) + if deck[i as int] != first
            && deck[i as int] != second && deck[j as int] != first && deck[j as int] != second {
            1nat
        } else {
            0
        }
    }
}

proof fn lemma_free_joined(
    deck: Seq<Card>,
    first: Card,
    second: Card,
    left: Seq<(usize, usize)>,
    right: Seq<(usize, usize)>,
    n: nat,
)
    requires
        n <= left.len() + right.len(),
    ensures
        free_pairs(deck, first, second, left + right, n) == (if n <= left.len() {
            free_pairs(deck, first, second, left, n)
        } else {
            free_pairs(deck, first, second, left, left.len()) + free_pairs(
                deck,
                first,
                second,
                right,
                (n - left.len()) as nat,
            )
        }),
    decreases n,
{
    if n > 0 {
        lemma_free_joined(deck, first, second, left, right, (n - 1) as nat);
    }
}

proof fn lemma_free_row(deck: Seq<Card>, first: Card, second: Card, i: nat, n: nat)
    requires
        i < deck.len() <= 52,
        n <= deck.len() - i - 1,
    ensures
        free_pairs(deck, first, second, pair_row(deck.len(), i), n) == (if deck[i as int] != first
            && deck[i as int] != second {
            free_cards(deck, first, second, i as int + 1, i as int + 1 + n as int)
        } else {
            0
        }),
    decreases n,
{
    if n > 0 {
        lemma_free_row(deck, first, second, i, (n - 1) as nat);
        let (x, y) = pair_row(deck.len(), i)[n - 1];
        assert(x == i && y == i + n);
    }
}

/// The pairs of free cards, counted by the smaller card.
proof fn lemma_free_rows(deck: Seq<Card>, first: Card, second: Card, m: nat)
    requires
        m <= deck.len() <= 52,
    ensures
        ({
            let n = deck.len() as int;
            let all = free_cards(deck, first, second, 0, n) as int;
            let rest = free_cards(deck, first, second, m as int, n) as int;
            let list = pair_rows(deck.len(), m);
            2 * free_pairs(deck, first, second, list, list.len()) == (all * all - all) - (rest * rest
                - rest)
        }),
    decreases m,
{
    if m > 0 {
        let n = deck.len() as int;
        lemma_free_rows(deck, first, second, (m - 1) as nat);
        let left = pair_rows(deck.len(), (m - 1) as nat);
        let row = pair_row(deck.len(), (m - 1) as nat);
        assert(pair_rows(deck.len(), m) == left + row);
        lemma_free_joined(deck, first, second, left, row, left.len() + row.len());
        assert(free_pairs(deck, first, second, row, 0) == 0);
        lemma_free_row(deck, first, second, (m - 1) as nat, row.len());
        lemma_free_from_front(deck, first, second, m - 1, n);
        let rest = free_cards(deck, first, second, m as int, n) as int;
        assert((rest + 1) * (rest + 1) - (rest + 1) == rest * rest - rest + 2 * rest)
            by (nonlinear_arith);
    }
}

proof fn lemma_clear_cards(board: Seq<Card>, first: Card, second: Card, n: nat)
    requires
        board.len() == 4,
        is_clear(board, first, second),
        n <= deck_without(board).len(),
    ensures
        clear_boards(completions(board), first, second, n) == free_cards(
            deck_without(board),
            first,
            second,
            0,
            n as int,
        ),
    decreases n,
{
    if n > 0 {
        lemma_clear_cards(board, first, second, (n - 1) as nat);
        let card = deck_without(board)[n - 1];
        let longer = board.push(card);
        assert(completions(board)[n - 1] == longer);
        lemma_pushed(board, card, first);
        lemma_pushed(board, card, second);
    }
}

proof fn lemma_pushed(board: Seq<Card>, card: Card, other: Card)
    ensures
        board.push(card).contains(other) == (board.contains(other) || card == other),
{
    let longer = board.push(card);
    if board.contains(other) {
        let i = choose|i: int| 0 <= i < board.len() && board[i] == other;
        assert(longer[i] == other);
    }
    if card == other {
        assert(longer[board.len() as int] == other);
    }
    if longer.contains(other) {
        let i = choose|i: int| 0 <= i < longer.len() && longer[i] == other;
        if i < board.len() {
            assert(board[i] == other);
        }
    }
}

proof fn lemma_clear_pairs(board: Seq<Card>, first: Card, second: Card, n: nat)
    requires
        board.len() == 3,
        is_clear(board, first, second),
        n <= pairs(deck_without(board).len()).len(),
    ensures
        clear_boards(completions(board), first, second, n) == free_pairs(
            deck_without(board),
            first,
            second,
            pairs(deck_without(board).len()),
            n,
        ),
    decreases n,
{
    if n > 0 {
        lemma_clear_pairs(board, first, second, (n - 1) as nat);
        let deck = deck_without(board);
        let (i, j) = pairs(deck.len())[n - 1];
        let (a, b) = (deck[i as int], deck[j as int]);
        assert(completions(board)[n - 1] == board.push(a).push(b));
        lemma_pushed(board, a, first);
        lemma_pushed(board, a, second);
        lemma_pushed(board.push(a), b, first);
        lemma_pushed(board.push(a), b, second);
    }
}

/// On how many finished boards a hand can be held that can be held on a board of so many cards.
pub open spec fn boards_to_come(cards: nat) -> nat {
    if cards == 5 {
        1
    } else if cards == 4 {
        46
    } else {
        1081
    }
}

/// A hand that can be held on a board can be held on as many finished boards as any other.
pub proof fn hands_meet_as_many_boards(board: Seq<Card>, first: Card, second: Card)
    requires
        3 <= board.len() <= 5,
        all_different(board),
        first != second,
        is_clear(board, first, second),
    ensures
        clear_boards(completions(board), first, second, completions(board).len()) == boards_to_come(
            board.len(),
        ),
{
    let deck = deck_without(board);
    let all = completions(board);
    deck_without_facts(board);
    if board.len() == 5 {
        assert(clear_boards(all, first, second, 0) == 0);
        assert(all[0] == board);
    } else {
        assert(deck.contains(first) && deck.contains(second));
        let a = choose|a: int| 0 <= a < deck.len() && deck[a] == first;
        let b = choose|b: int| 0 <= b < deck.len() && deck[b] == second;
        lemma_free_of_deck(deck, a, b, deck.len() as int);
        if board.len() == 4 {
            lemma_clear_cards(board, first, second, deck.len());
        } else {
            lemma_clear_pairs(board, first, second, pairs(deck.len()).len());
            lemma_free_rows(deck, first, second, deck.len());
            assert(free_cards(deck, first, second, deck.len() as int, deck.len() as int) == 0);
            assert(47int * 47 - 47 == 2162) by (nonlinear_arith);
        }
    }
}

/// A hand that cannot be held on a board can be held on no board that it goes on to.
pub proof fn blocked_hands_meet_no_board(board: Seq<Card>, first: Card, second: Card, n: nat)
    requires
        3 <= board.len() <= 5,
        !is_clear(board, first, second),
        n <= completions(board).len(),
    ensures
        clear_boards(completions(board), first, second, n) == 0,
    decreases n,
{
    if n > 0 {
        blocked_hands_meet_no_board(board, first, second, (n - 1) as nat);
        let deck = deck_without(board);
        if board.len() == 4 {
            lemma_pushed(board, deck[n - 1], first);
            lemma_pushed(board, deck[n - 1], second);
        } else if board.len() == 3 {
            let (i, j) = pairs(deck.len())[n - 1];
            let (a, b) = (deck[i as int], deck[j as int]);
            assert(completions(board)[n - 1] == board.push(a).push(b));
            lemma_pushed(board, a, first);
            lemma_pushed(board, a, second);
            lemma_pushed(board.push(a), b, first);
            lemma_pushed(board.push(a), b, second);
        }
    }
}

} // verus!
