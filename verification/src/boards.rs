//! How boards can go on.
use vstd::prelude::*;
use crate::cards::{all_different, card_position_round_trip, deck_without, Board, Card};
use crate::deals::{deck_without_facts, index_pairs, pairs, pairs_are_all};
use crate::isomorphism::{
    board_symmetries, class_facts, class_views, identity_is_symmetry, is_symmetry,
    next_card_classes, next_card_isomorphism, symmetries, symmetries_facts, CardClass, ClassMember,
    ClassView, NextCardIsomorphism, SuitPermutation,
};
use crate::range::{ComboWeight, RangeSpec};
use crate::scalar::Scalar;
use crate::text::{around, around_spec};

verus! {

/// The finished boards that a board can become: itself if it is finished, else with each card to come,
/// or with each pair of cards to come, in ascending order.
pub open spec fn completions(board: Seq<Card>) -> Seq<Seq<Card>> {
    let deck = deck_without(board);
    if board.len() == 5 {
        seq![board]
    } else if board.len() == 4 {
        Seq::new(deck.len(), |k: int| board.push(deck[k]))
    } else {
        Seq::new(
            pairs(deck.len()).len(),
            |k: int|
                board.push(deck[pairs(deck.len())[k].0 as int]).push(
                    deck[pairs(deck.len())[k].1 as int],
                ),
        )
    }
}

/// Whether boards hold the cards of sequences.
pub open spec fn boards_are(boards: Seq<Board>, cards: Seq<Seq<Card>>) -> bool {
    &&& boards.len() == cards.len()
    &&& forall|k: int|
        0 <= k < boards.len() ==> (#[trigger] boards[k]).wf() && boards[k]@ == cards[k]
}

/// The boards with each pair of cards to come.
pub fn river_boards_from_flop(flop: &Board) -> (r: Result<Vec<Board>, String>)
    requires
        flop.wf(),
    ensures
        match r {
            Ok(boards) => {
                let deck = deck_without(flop@);
                &&& flop@.len() <= 3
                &&& boards@.len() == pairs(deck.len()).len()
                &&& forall|k: int|
                    0 <= k < boards@.len() ==> (#[trigger] boards@[k]).wf() && boards@[k]@
                        == flop@.push(deck[pairs(deck.len())[k].0 as int]).push(
                        deck[pairs(deck.len())[k].1 as int],
                    )
            },
            Err(message) => flop@.len() > 3 && message@ == "board is full"@,
        },
{
    let deck: Vec<Card> = flop.remaining_deck();
    proof {
        flop.wf_facts();
        deck_without_facts(flop@);
        pairs_are_all(deck@.len());
    }
    if flop.len() > 3 {
        return Err("board is full".to_owned());
    }
    let places: Vec<(usize, usize)> = index_pairs(deck.len());
    let mut boards: Vec<Board> = Vec::new();
    for k in 0..places.len()
        invariant
            flop.wf(),
            flop@.len() <= 3,
            deck@ == deck_without(flop@),
            places@ == pairs(deck@.len()),
            forall|l: int|
                0 <= l < places@.len() ==> (#[trigger] places@[l]).0 < places@[l].1 < deck@.len(),
            forall|i: int| 0 <= i < deck@.len() ==> !flop@.contains(#[trigger] deck@[i]),
            forall|i: int, j: int|
                0 <= i < j < deck@.len() ==> (#[trigger] deck@[i]).id() < (#[trigger] deck@[j]).id(),
            boards@.len() == k,
            forall|l: int|
                0 <= l < k ==> (#[trigger] boards@[l]).wf() && boards@[l]@ == flop@.push(
                    deck@[places@[l].0 as int],
                ).push(deck@[places@[l].1 as int]),
    {
        let (turn, river): (usize, usize) = places[k];
        proof {
            assert(places@[k as int].0 < places@[k as int].1 < deck@.len());
            assert(!flop@.contains(deck@[turn as int]));
            assert(!flop@.contains(deck@[river as int]));
            assert(deck@[turn as int].id() < deck@[river as int].id());
        }
        let next: Board = flop.with_card(deck[turn]);
        proof {
            assert(!next@.contains(deck@[river as int])) by {
                if next@.contains(deck@[river as int]) {
                    let i = choose|i: int| 0 <= i < next@.len() && next@[i] == deck@[river as int];
                    if i < flop@.len() {
                        assert(flop@[i] == deck@[river as int]);
                    }
                }
            }
        }
        boards.push(next.with_card(deck[river]));
    }
    Ok(boards)
}

/// The finished boards that a board can become.
pub fn terminal_boards(board: &Board) -> (r: Result<Vec<Board>, String>)
    requires
        board.wf(),
    ensures
        match r {
            Ok(boards) => 3 <= board@.len() <= 5 && boards_are(boards@, completions(board@)),
            Err(message) => {
                &&& board@.len() < 3
                &&& message@ == around_spec(
                    "terminal CFV requires a flop, turn, or river board, got "@,
                    board@.len(),
                    " cards"@,
                )
            },
        },
{
    proof {
        board.wf_facts();
        deck_without_facts(board@);
    }
    let count: usize = board.len();
    if count == 5 {
        let mut boards: Vec<Board> = Vec::new();
        boards.push(*board);
        return Ok(boards);
    }
    if count == 4 {
        let deck: Vec<Card> = board.remaining_deck();
        let mut boards: Vec<Board> = Vec::new();
        for k in 0..deck.len()
            invariant
                board.wf(),
                board@.len() == 4,
                deck@ == deck_without(board@),
                forall|i: int| 0 <= i < deck@.len() ==> !board@.contains(#[trigger] deck@[i]),
                boards@.len() == k,
                forall|l: int|
                    0 <= l < k ==> (#[trigger] boards@[l]).wf() && boards@[l]@ == board@.push(
                        deck@[l],
                    ),
        {
            proof {
                assert(!board@.contains(deck@[k as int]));
            }
            boards.push(board.with_card(deck[k]));
        }
        return Ok(boards);
    }
    if count == 3 {
        return river_boards_from_flop(board);
    }
    Err(around("terminal CFV requires a flop, turn, or river board, got ", count, " cards"))
}

/// The first finished board that a board can become.
pub fn first_terminal_board(board: &Board) -> (r: Result<Board, String>)
    requires
        board.wf(),
    ensures
        match r {
            Ok(first) => {
                &&& 3 <= board@.len() <= 5
                &&& first.wf()
                &&& first@ == completions(board@)[0]
                &&& first@.len() == 5
            },
            Err(message) => {
                &&& board@.len() < 3
                &&& message@ == around_spec(
                    "terminal CFV requires a flop, turn, or river board, got "@,
                    board@.len(),
                    " cards"@,
                )
            },
        },
{
    if board.len() == 5 {
        return Ok(*board);
    }
    match terminal_boards(board) {
        Ok(boards) => {
            proof {
                board.wf_facts();
                deck_without_facts(board@);
                pairs_are_all(deck_without(board@).len());
                let n = deck_without(board@).len();
                if board@.len() == 3 {
                    assert(n * (n - 1) == 49 * 48) by (nonlinear_arith)
                        requires
                            n == 49,
                    ;
                }
                assert(completions(board@).len() > 0);
                assert(boards@[0].wf());
                assert(boards@[0]@ == completions(board@)[0]);
            }
            Ok(boards[0])
        },
        Err(message) => Err(message),
    }
}

/// The image of a pair of cards, smaller card first.
pub open spec fn pair_image(permutation: SuitPermutation, a: Card, b: Card) -> (Card, Card) {
    let x = permutation.image(a);
    let y = permutation.image(b);
    if x.id() < y.id() {
        (x, y)
    } else {
        (y, x)
    }
}

/// A number that orders pairs of cards.
pub open spec fn pair_order(pair: (Card, Card)) -> int {
    pair.0.id() * 52 + pair.1.id()
}

/// The place of the permutation, among the first `n`, that makes the least pair of a pair of cards.
pub open spec fn best_pair_place(
    permutations: Seq<SuitPermutation>,
    a: Card,
    b: Card,
    n: nat,
) -> nat
    decreases n,
{
    if n <= 1 {
        0
    } else {
        let front = best_pair_place(permutations, a, b, (n - 1) as nat);
        if pair_order(pair_image(permutations[n - 1], a, b)) < pair_order(
            pair_image(permutations[front as int], a, b),
        ) {
            (n - 1) as nat
        } else {
            front
        }
    }
}

/// The permutation that makes the least pair of a pair of cards, the first of them.
pub open spec fn best_pair_permutation(
    permutations: Seq<SuitPermutation>,
    a: Card,
    b: Card,
) -> SuitPermutation {
    permutations[best_pair_place(permutations, a, b, permutations.len()) as int]
}

/// The number of the pair that stands for the class of a pair of cards.
pub open spec fn pair_class(permutations: Seq<SuitPermutation>, a: Card, b: Card) -> int {
    pair_order(pair_image(best_pair_permutation(permutations, a, b), a, b))
}

/// The codes of the permutations that make a pair of the first `n` pairs of its class.
pub open spec fn pair_members(
    permutations: Seq<SuitPermutation>,
    deck: Seq<Card>,
    class: int,
    n: nat,
) -> Seq<u8>
    decreases n,
{
    if n == 0 {
        Seq::empty()
    } else {
        let front = pair_members(permutations, deck, class, (n - 1) as nat);
        let (i, j) = pairs(deck.len())[n - 1];
        let a = deck[i as int];
        let b = deck[j as int];
        if pair_class(permutations, a, b) == class {
            front.push(best_pair_permutation(permutations, a, b).code_spec() as u8)
        } else {
            front
        }
    }
}

/// A finished board that stands for those that symmetries map to it, with the codes of the permutations
/// that do.
pub ghost struct BoardClassView {
    pub board: Seq<Card>,
    pub codes: Seq<u8>,
}

/// The classes of the first `n` pairs of cards to come on a flop.
pub open spec fn pair_classes(
    permutations: Seq<SuitPermutation>,
    board: Seq<Card>,
    deck: Seq<Card>,
    n: nat,
) -> Seq<BoardClassView>
    decreases n,
{
    if n == 0 {
        Seq::empty()
    } else {
        let front = pair_classes(permutations, board, deck, (n - 1) as nat);
        let (i, j) = pairs(deck.len())[n - 1];
        let a = deck[i as int];
        let b = deck[j as int];
        let codes = pair_members(permutations, deck, pair_order((a, b)), pairs(deck.len()).len());
        if codes.len() == 0 {
            front
        } else {
            front.push(BoardClassView { board: board.push(a).push(b), codes })
        }
    }
}

/// The codes of the members of a class.
pub open spec fn member_codes(members: Seq<ClassMember>) -> Seq<u8> {
    members.map(
        |i: int, member: ClassMember| member.permutation_to_representative.code_spec() as u8,
    )
}

/// The classes of the finished boards that a board can become.
pub open spec fn board_classes<S: Scalar>(
    board: Seq<Card>,
    oop: Seq<ComboWeight<S>>,
    ip: Seq<ComboWeight<S>>,
) -> Seq<BoardClassView> {
    if board.len() == 5 {
        seq![
            BoardClassView {
                board,
                codes: seq![SuitPermutation::identity_spec().code_spec() as u8],
            },
        ]
    } else if board.len() == 4 {
        next_card_classes(board, oop, ip).map(
            |i: int, class: ClassView|
                BoardClassView {
                    board: board.push(class.representative),
                    codes: member_codes(class.members),
                },
        )
    } else {
        let deck = deck_without(board);
        pair_classes(symmetries(board, oop, ip), board, deck, pairs(deck.len()).len())
    }
}

/// A finished board that stands for those that symmetries map to it.
#[derive(Clone, Debug)]
pub struct TerminalBoardClass {
    pub representative_board: Board,
    pub member_permutation_codes: Vec<u8>,
}

/// Whether classes of finished boards are those of a board.
pub open spec fn classes_are(classes: Seq<TerminalBoardClass>, views: Seq<BoardClassView>) -> bool {
    &&& classes.len() == views.len()
    &&& forall|k: int|
        0 <= k < classes.len() ==> {
            let class = #[trigger] classes[k];
            &&& class.representative_board.wf()
            &&& class.representative_board@ == views[k].board
            &&& class.member_permutation_codes@ == views[k].codes
        }
}

fn find_best_pair(permutations: &Vec<SuitPermutation>, a: Card, b: Card) -> (r: (SuitPermutation, usize))
    requires
        permutations@.len() > 0,
    ensures
        r.0 == best_pair_permutation(permutations@, a, b),
        r.1 == pair_class(permutations@, a, b),
{
    let mut best: usize = 0;
    let mut least: usize = pair_number(permutations[0], a, b);
    let mut i: usize = 1;
    while i < permutations.len()
        invariant
            1 <= i <= permutations@.len(),
            best < i,
            best == best_pair_place(permutations@, a, b, i as nat),
            least == pair_order(pair_image(permutations@[best as int], a, b)),
        decreases permutations@.len() - i,
    {
        let number: usize = pair_number(permutations[i], a, b);
        if number < least {
            best = i;
            least = number;
        }
        i = i + 1;
    }
    (permutations[best], least)
}

fn pair_number(permutation: SuitPermutation, a: Card, b: Card) -> (r: usize)
    ensures
        r == pair_order(pair_image(permutation, a, b)),
        r < 2704,
{
    let x: Card = permutation.apply(a);
    let y: Card = permutation.apply(b);
    proof {
        card_position_round_trip(x, 0);
        card_position_round_trip(y, 0);
    }
    if x.index() < y.index() {
        x.index() * 52 + y.index()
    } else {
        y.index() * 52 + x.index()
    }
}

/// The classes of the pairs of cards to come on a flop.
fn flop_board_classes<S: Scalar>(flop: &Board, oop: &RangeSpec<S>, ip: &RangeSpec<S>) -> (r: Vec<
    TerminalBoardClass,
>)
    requires
        flop.wf(),
        flop@.len() == 3,
    ensures
        classes_are(r@, board_classes(flop@, oop.combos_spec(), ip.combos_spec())),
{
    let ghost permutation_list = symmetries(flop@, oop.combos_spec(), ip.combos_spec());
    let permutations: Vec<SuitPermutation> = board_symmetries(flop, oop, ip);
    let deck: Vec<Card> = flop.remaining_deck();
    proof {
        identity_is_symmetry(flop@, oop.combos_spec(), ip.combos_spec());
        flop.wf_facts();
        deck_without_facts(flop@);
        pairs_are_all(deck@.len());
    }
    let places: Vec<(usize, usize)> = index_pairs(deck.len());
    let mut numbers: Vec<usize> = Vec::new();
    let mut codes: Vec<u8> = Vec::new();
    for k in 0..places.len()
        invariant
            permutations@ == permutation_list,
            permutations@.len() > 0,
            places@ == pairs(deck@.len()),
            forall|l: int|
                0 <= l < places@.len() ==> (#[trigger] places@[l]).0 < places@[l].1 < deck@.len(),
            numbers@.len() == k,
            codes@.len() == k,
            forall|l: int|
                #![trigger numbers@[l]]
                #![trigger codes@[l]]
                0 <= l < k ==> {
                    let a = deck@[places@[l].0 as int];
                    let b = deck@[places@[l].1 as int];
                    &&& numbers@[l] == pair_class(permutation_list, a, b)
                    &&& codes@[l] == best_pair_permutation(permutation_list, a, b).code_spec()
                },
    {
        let (i, j): (usize, usize) = places[k];
        proof {
            assert(places@[k as int].0 < places@[k as int].1 < deck@.len());
        }
        let (permutation, number): (SuitPermutation, usize) = find_best_pair(
            &permutations,
            deck[i],
            deck[j],
        );
        numbers.push(number);
        codes.push(permutation.code());
    }
    let mut classes: Vec<TerminalBoardClass> = Vec::new();
    for k in 0..places.len()
        invariant
            flop.wf(),
            flop@.len() == 3,
            deck@ == deck_without(flop@),
            places@ == pairs(deck@.len()),
            forall|l: int|
                0 <= l < places@.len() ==> (#[trigger] places@[l]).0 < places@[l].1 < deck@.len(),
            forall|i: int| 0 <= i < deck@.len() ==> !flop@.contains(#[trigger] deck@[i]),
            forall|i: int, j: int|
                0 <= i < j < deck@.len() ==> (#[trigger] deck@[i]).id() < (#[trigger] deck@[j]).id(),
            numbers@.len() == places@.len(),
            codes@.len() == places@.len(),
            forall|l: int|
                #![trigger numbers@[l]]
                #![trigger codes@[l]]
                0 <= l < places@.len() ==> {
                    let a = deck@[places@[l].0 as int];
                    let b = deck@[places@[l].1 as int];
                    &&& numbers@[l] == pair_class(permutation_list, a, b)
                    &&& codes@[l] == best_pair_permutation(permutation_list, a, b).code_spec()
                },
            classes_are(classes@, pair_classes(permutation_list, flop@, deck@, k as nat)),
    {
        let (i, j): (usize, usize) = places[k];
        proof {
            assert(places@[k as int].0 < places@[k as int].1 < deck@.len());
            card_position_round_trip(deck@[i as int], 0);
            card_position_round_trip(deck@[j as int], 0);
        }
        let a: Card = deck[i];
        let b: Card = deck[j];
        let own: usize = a.index() * 52 + b.index();
        let mut members: Vec<u8> = Vec::new();
        for l in 0..places.len()
            invariant
                places@ == pairs(deck@.len()),
                own == pair_order((a, b)),
                numbers@.len() == places@.len(),
                codes@.len() == places@.len(),
                forall|l: int|
                    #![trigger numbers@[l]]
                    #![trigger codes@[l]]
                    0 <= l < places@.len() ==> {
                        let a = deck@[places@[l].0 as int];
                        let b = deck@[places@[l].1 as int];
                        &&& numbers@[l] == pair_class(permutation_list, a, b)
                        &&& codes@[l] == best_pair_permutation(permutation_list, a, b).code_spec()
                    },
                members@ == pair_members(permutation_list, deck@, own as int, l as nat),
        {
            if numbers[l] == own {
                members.push(codes[l]);
            }
        }
        if members.len() > 0 {
            proof {
                assert(!flop@.contains(a));
                assert(!flop@.contains(b));
                assert(a.id() < b.id());
            }
            let next: Board = flop.with_card(a);
            proof {
                assert(!next@.contains(b)) by {
                    if next@.contains(b) {
                        let m = choose|m: int| 0 <= m < next@.len() && next@[m] == b;
                        if m < flop@.len() {
                            assert(flop@[m] == b);
                        }
                    }
                }
            }
            let ghost was = classes@;
            classes.push(
                TerminalBoardClass {
                    representative_board: next.with_card(b),
                    member_permutation_codes: members,
                },
            );
            proof {
                let views = pair_classes(permutation_list, flop@, deck@, (k + 1) as nat);
                assert forall|m: int| 0 <= m < classes@.len() implies {
                    let class = #[trigger] classes@[m];
                    &&& class.representative_board.wf()
                    &&& class.representative_board@ == views[m].board
                    &&& class.member_permutation_codes@ == views[m].codes
                } by {
                    if m < was.len() {
                        assert(classes@[m] == was[m]);
                    }
                }
            }
        }
    }
    classes
}

/// The classes of the finished boards that a board can become.
pub fn terminal_board_isomorphism<S: Scalar>(board: &Board, oop: &RangeSpec<S>, ip: &RangeSpec<S>) -> (r:
    Vec<TerminalBoardClass>)
    requires
        board.wf(),
        3 <= board@.len(),
    ensures
        classes_are(r@, board_classes(board@, oop.combos_spec(), ip.combos_spec())),
{
    proof {
        board.wf_facts();
    }
    let count: usize = board.len();
    if count == 3 {
        return flop_board_classes(board, oop, ip);
    }
    let mut classes: Vec<TerminalBoardClass> = Vec::new();
    if count == 5 {
        let mut codes: Vec<u8> = Vec::new();
        codes.push(SuitPermutation::identity().code());
        proof {
            assert(codes@ =~= seq![SuitPermutation::identity_spec().code_spec() as u8]);
        }
        classes.push(
            TerminalBoardClass { representative_board: *board, member_permutation_codes: codes },
        );
        return classes;
    }
    let isomorphism: NextCardIsomorphism = next_card_isomorphism(board, oop, ip);
    let ghost views = next_card_classes(board@, oop.combos_spec(), ip.combos_spec());
    let ghost goal = board_classes(board@, oop.combos_spec(), ip.combos_spec());
    proof {
        class_facts(
            board@,
            oop.combos_spec(),
            ip.combos_spec(),
            deck_without(board@).len(),
        );
        assert(class_views(isomorphism.classes@).len() == isomorphism.classes@.len());
    }
    for k in 0..isomorphism.classes.len()
        invariant
            board.wf(),
            board@.len() == 4,
            views == class_views(isomorphism.classes@),
            views.len() == isomorphism.classes@.len(),
            goal == board_classes(board@, oop.combos_spec(), ip.combos_spec()),
            views == next_card_classes(board@, oop.combos_spec(), ip.combos_spec()),
            forall|m: int|
                0 <= m < views.len() ==> !board@.contains((#[trigger] views[m]).representative),
            classes@.len() == k,
            forall|m: int|
                0 <= m < k ==> {
                    let class = #[trigger] classes@[m];
                    &&& class.representative_board.wf()
                    &&& class.representative_board@ == goal[m].board
                    &&& class.member_permutation_codes@ == goal[m].codes
                },
    {
        let class: &CardClass = &isomorphism.classes[k];
        proof {
            assert(class_views(isomorphism.classes@)[k as int] == isomorphism.classes@[k as int]@);
            assert(!board@.contains(views[k as int].representative));
        }
        let mut codes: Vec<u8> = Vec::new();
        for m in 0..class.members.len()
            invariant
                codes@ =~= member_codes(class.members@).take(m as int),
        {
            codes.push(class.members[m].permutation_to_representative.code());
        }
        proof {
            assert(member_codes(class.members@).take(class.members@.len() as int) =~= member_codes(
                class.members@,
            ));
        }
        let ghost was = classes@;
        classes.push(
            TerminalBoardClass {
                representative_board: board.with_card(class.representative),
                member_permutation_codes: codes,
            },
        );
        proof {
            assert forall|m: int| 0 <= m < k + 1 implies {
                let class = #[trigger] classes@[m];
                &&& class.representative_board.wf()
                &&& class.representative_board@ == goal[m].board
                &&& class.member_permutation_codes@ == goal[m].codes
            } by {
                if m < k {
                    assert(classes@[m] == was[m]);
                }
            }
        }
    }
    classes
}

/// Whether a code is that of a symmetry.
pub open spec fn is_symmetry_code<S: Scalar>(
    board: Seq<Card>,
    oop: Seq<ComboWeight<S>>,
    ip: Seq<ComboWeight<S>>,
    code: u8,
) -> bool {
    exists|permutation: SuitPermutation|
        permutation.wf() && #[trigger] is_symmetry(board, oop, ip, permutation) && code
            == permutation.code_spec()
}

proof fn lemma_code<S: Scalar>(
    board: Seq<Card>,
    oop: Seq<ComboWeight<S>>,
    ip: Seq<ComboWeight<S>>,
    permutation: SuitPermutation,
)
    requires
        permutation.wf(),
        is_symmetry(board, oop, ip, permutation),
    ensures
        is_symmetry_code(board, oop, ip, permutation.code_spec() as u8),
{
    assert(permutation.clubs.ord() < 4 && permutation.diamonds.ord() < 4 && permutation.hearts.ord()
        < 4 && permutation.spades.ord() < 4);
    assert(permutation.code_spec() < 256);
}

/// The codes of every class are codes of symmetries, and every class's board is finished, goes on from
/// the board, and holds no card twice.
pub proof fn board_class_facts<S: Scalar>(
    board: Board,
    oop: Seq<ComboWeight<S>>,
    ip: Seq<ComboWeight<S>>,
)
    requires
        board.wf(),
        3 <= board@.len(),
    ensures
        forall|k: int|
            0 <= k < board_classes(board@, oop, ip).len() ==> {
                let class = #[trigger] board_classes(board@, oop, ip)[k];
                &&& class.board.len() == 5
                &&& all_different(class.board)
                &&& forall|i: int| 0 <= i < board@.len() ==> class.board[i] == #[trigger] board@[i]
                &&& forall|m: int|
                    0 <= m < class.codes.len() ==> is_symmetry_code(
                        board@,
                        oop,
                        ip,
                        #[trigger] class.codes[m],
                    )
            },
{
    board.wf_facts();
    identity_is_symmetry(board@, oop, ip);
    symmetries_facts(board@, oop, ip, 256);
    let cards = board@;
    deck_without_facts(cards);
    let deck = deck_without(cards);
    let classes = board_classes(cards, oop, ip);
    if cards.len() == 5 {
        let id = SuitPermutation::identity_spec();
        let list = symmetries(cards, oop, ip);
        let i = choose|i: int| 0 <= i < list.len() && list[i] == id;
        assert(list[i].wf() && is_symmetry(cards, oop, ip, list[i]));
        lemma_code(cards, oop, ip, id);
    } else if cards.len() == 4 {
        class_facts(cards, oop, ip, deck.len());
        let views = next_card_classes(cards, oop, ip);
        assert forall|k: int| 0 <= k < classes.len() implies {
            let class = #[trigger] classes[k];
            &&& class.board.len() == 5
            &&& all_different(class.board)
            &&& forall|i: int| 0 <= i < cards.len() ==> class.board[i] == #[trigger] cards[i]
            &&& forall|m: int|
                0 <= m < class.codes.len() ==> is_symmetry_code(
                    cards,
                    oop,
                    ip,
                    #[trigger] class.codes[m],
                )
        } by {
            let view = views[k];
            assert(!cards.contains(view.representative));
            lemma_pushed_different(cards, view.representative);
            assert forall|m: int| 0 <= m < classes[k].codes.len() implies is_symmetry_code(
                cards,
                oop,
                ip,
                #[trigger] classes[k].codes[m],
            ) by {
                let member = view.members[m];
                assert(is_symmetry(cards, oop, ip, member.permutation_to_representative));
                lemma_code(cards, oop, ip, member.permutation_to_representative);
            }
        }
    } else {
        pairs_are_all(deck.len());
        lemma_pair_class_facts(cards, oop, ip, pairs(deck.len()).len());
    }
}

proof fn lemma_pushed_different(cards: Seq<Card>, card: Card)
    requires
        all_different(cards),
        !cards.contains(card),
    ensures
        all_different(cards.push(card)),
{
    let more = cards.push(card);
    assert forall|i: int, j: int| 0 <= i < j < more.len() implies #[trigger] more[i]
        != #[trigger] more[j] by {
        if j == cards.len() {
            assert(cards[i] == more[i]);
        }
    }
}

proof fn lemma_best_pair(permutations: Seq<SuitPermutation>, a: Card, b: Card, n: nat)
    requires
        1 <= n <= permutations.len(),
    ensures
        best_pair_place(permutations, a, b, n) < n,
    decreases n,
{
    if n > 1 {
        lemma_best_pair(permutations, a, b, (n - 1) as nat);
    }
}

proof fn lemma_pair_members<S: Scalar>(
    board: Seq<Card>,
    oop: Seq<ComboWeight<S>>,
    ip: Seq<ComboWeight<S>>,
    class: int,
    n: nat,
)
    ensures
        forall|m: int|
            0 <= m < pair_members(symmetries(board, oop, ip), deck_without(board), class, n).len()
                ==> is_symmetry_code(
                board,
                oop,
                ip,
                #[trigger] pair_members(symmetries(board, oop, ip), deck_without(board), class, n)[m],
            ),
    decreases n,
{
    if n > 0 {
        lemma_pair_members(board, oop, ip, class, (n - 1) as nat);
        let permutations = symmetries(board, oop, ip);
        let deck = deck_without(board);
        identity_is_symmetry(board, oop, ip);
        symmetries_facts(board, oop, ip, 256);
        let (i, j) = pairs(deck.len())[n - 1];
        let a = deck[i as int];
        let b = deck[j as int];
        lemma_best_pair(permutations, a, b, permutations.len());
        let place = best_pair_place(permutations, a, b, permutations.len()) as int;
        assert(permutations[place].wf() && is_symmetry(board, oop, ip, permutations[place]));
        lemma_code(board, oop, ip, permutations[place]);
        let front = pair_members(permutations, deck, class, (n - 1) as nat);
        let whole = pair_members(permutations, deck, class, n);
        assert forall|m: int| 0 <= m < whole.len() implies is_symmetry_code(
            board,
            oop,
            ip,
            #[trigger] whole[m],
        ) by {
            if m < front.len() {
                assert(whole[m] == front[m]);
            }
        }
    }
}

proof fn lemma_pair_class_facts<S: Scalar>(
    board: Seq<Card>,
    oop: Seq<ComboWeight<S>>,
    ip: Seq<ComboWeight<S>>,
    n: nat,
)
    requires
        board.len() == 3,
        all_different(board),
        n <= pairs(deck_without(board).len()).len(),
    ensures
        forall|k: int|
            0 <= k < pair_classes(symmetries(board, oop, ip), board, deck_without(board), n).len() ==> {
                let class = #[trigger] pair_classes(
                    symmetries(board, oop, ip),
                    board,
                    deck_without(board),
                    n,
                )[k];
                &&& class.board.len() == 5
                &&& all_different(class.board)
                &&& forall|i: int| 0 <= i < board.len() ==> class.board[i] == #[trigger] board[i]
                &&& forall|m: int|
                    0 <= m < class.codes.len() ==> is_symmetry_code(
                        board,
                        oop,
                        ip,
                        #[trigger] class.codes[m],
                    )
            },
    decreases n,
{
    if n > 0 {
        lemma_pair_class_facts(board, oop, ip, (n - 1) as nat);
        let permutations = symmetries(board, oop, ip);
        let deck = deck_without(board);
        deck_without_facts(board);
        pairs_are_all(deck.len());
        let pair = pairs(deck.len())[n - 1];
        let a = deck[pair.0 as int];
        let b = deck[pair.1 as int];
        lemma_pair_members(board, oop, ip, pair_order((a, b)), pairs(deck.len()).len());
        assert(pairs(deck.len())[n - 1].0 < pairs(deck.len())[n - 1].1 < deck.len());
        assert(!board.contains(a));
        assert(!board.contains(b));
        assert(a.id() < b.id());
        lemma_pushed_different(board, a);
        assert(!board.push(a).contains(b)) by {
            if board.push(a).contains(b) {
                let m = choose|m: int| 0 <= m < board.push(a).len() && board.push(a)[m] == b;
                if m < board.len() {
                    assert(board[m] == b);
                }
            }
        }
        lemma_pushed_different(board.push(a), b);
        let front = pair_classes(permutations, board, deck, (n - 1) as nat);
        let whole = pair_classes(permutations, board, deck, n);
        assert forall|k: int| 0 <= k < whole.len() implies {
            let class = #[trigger] whole[k];
            &&& class.board.len() == 5
            &&& all_different(class.board)
            &&& forall|i: int| 0 <= i < board.len() ==> class.board[i] == #[trigger] board[i]
            &&& forall|m: int|
                0 <= m < class.codes.len() ==> is_symmetry_code(
                    board,
                    oop,
                    ip,
                    #[trigger] class.codes[m],
                )
        } by {
            if k < front.len() {
                assert(whole[k] == front[k]);
            }
        }
    }
}

/// The representative turn boards of a flop and, behind each of them, its representative river boards.
pub open spec fn turn_boards<S: Scalar>(
    flop: Seq<Card>,
    oop: Seq<ComboWeight<S>>,
    ip: Seq<ComboWeight<S>>,
) -> Seq<Seq<Card>> {
    next_card_classes(flop, oop, ip).map(
        |i: int, class: ClassView| flop.push(class.representative),
    )
}

/// The representative river boards of the first `n` representative turn boards.
pub open spec fn river_boards<S: Scalar>(
    flop: Seq<Card>,
    oop: Seq<ComboWeight<S>>,
    ip: Seq<ComboWeight<S>>,
    n: nat,
) -> Seq<Seq<Card>>
    decreases n,
{
    if n == 0 {
        Seq::empty()
    } else {
        river_boards(flop, oop, ip, (n - 1) as nat) + turn_boards(
            turn_boards(flop, oop, ip)[n - 1],
            oop,
            ip,
        )
    }
}

/// The boards that a board becomes with each representative card.
fn next_boards<S: Scalar>(board: &Board, oop: &RangeSpec<S>, ip: &RangeSpec<S>) -> (r: Vec<Board>)
    requires
        board.wf(),
        board@.len() < 5,
    ensures
        boards_are(r@, turn_boards(board@, oop.combos_spec(), ip.combos_spec())),
{
    let isomorphism: NextCardIsomorphism = next_card_isomorphism(board, oop, ip);
    let ghost views = next_card_classes(board@, oop.combos_spec(), ip.combos_spec());
    let mut boards: Vec<Board> = Vec::new();
    proof {
        class_facts(board@, oop.combos_spec(), ip.combos_spec(), deck_without(board@).len());
        assert(class_views(isomorphism.classes@).len() == isomorphism.classes@.len());
    }
    for k in 0..isomorphism.classes.len()
        invariant
            board.wf(),
            board@.len() < 5,
            views == class_views(isomorphism.classes@),
            views.len() == isomorphism.classes@.len(),
            forall|m: int|
                0 <= m < views.len() ==> !board@.contains((#[trigger] views[m]).representative),
            boards@.len() == k,
            forall|m: int|
                0 <= m < k ==> (#[trigger] boards@[m]).wf() && boards@[m]@ == board@.push(
                    views[m].representative,
                ),
    {
        proof {
            assert(class_views(isomorphism.classes@)[k as int] == isomorphism.classes@[k as int]@);
            assert(!board@.contains(views[k as int].representative));
        }
        boards.push(board.with_card(isomorphism.classes[k].representative));
    }
    boards
}

/// The representative turn boards of a flop, and the representative river boards of each.
pub fn representative_ordered_future_boards<S: Scalar>(
    flop: &Board,
    oop_range: &RangeSpec<S>,
    ip_range: &RangeSpec<S>,
) -> (r: Result<(Vec<Board>, Vec<Board>), String>)
    requires
        flop.wf(),
    ensures
        match r {
            Ok((turns, rivers)) => {
                let oop = oop_range.combos_spec();
                let ip = ip_range.combos_spec();
                &&& flop@.len() == 3
                &&& boards_are(turns@, turn_boards(flop@, oop, ip))
                &&& boards_are(rivers@, river_boards(flop@, oop, ip, turns@.len()))
            },
            Err(message) => flop@.len() != 3 && message@
                == "real CFR solver must start from a flop board"@,
        },
{
    if flop.len() != 3 {
        return Err("real CFR solver must start from a flop board".to_owned());
    }
    let ghost oop = oop_range.combos_spec();
    let ghost ip = ip_range.combos_spec();
    let turns: Vec<Board> = next_boards(flop, oop_range, ip_range);
    let mut rivers: Vec<Board> = Vec::new();
    for k in 0..turns.len()
        invariant
            flop@.len() == 3,
            oop == oop_range.combos_spec(),
            ip == ip_range.combos_spec(),
            boards_are(turns@, turn_boards(flop@, oop, ip)),
            boards_are(rivers@, river_boards(flop@, oop, ip, k as nat)),
    {
        let ghost was = rivers@;
        proof {
            assert(turns@[k as int].wf());
            assert(turns@[k as int]@ == turn_boards(flop@, oop, ip)[k as int]);
        }
        let next: Vec<Board> = next_boards(&turns[k], oop_range, ip_range);
        let ghost goal = river_boards(flop@, oop, ip, (k + 1) as nat);
        for m in 0..next.len()
            invariant
                goal == river_boards(flop@, oop, ip, k as nat) + turn_boards(
                    turns@[k as int]@,
                    oop,
                    ip,
                ),
                boards_are(was, river_boards(flop@, oop, ip, k as nat)),
                boards_are(next@, turn_boards(turns@[k as int]@, oop, ip)),
                rivers@.len() == was.len() + m,
                forall|l: int|
                    0 <= l < rivers@.len() ==> (#[trigger] rivers@[l]).wf() && rivers@[l]@ == goal[l],
        {
            proof {
                assert(next@[m as int].wf());
                assert(goal[was.len() + m] == next@[m as int]@);
            }
            rivers.push(next[m]);
        }
    }
    Ok((turns, rivers))
}

} // verus!
