//! Classes of starting hands: pairs, suited and offsuit hands.
use vstd::prelude::*;
use crate::cards::{Card, Rank, Suit};
use crate::river::Combo;

verus! {

/// A class of starting hands. Ranks count from two to fourteen, the ace.
#[derive(Clone, Copy, Debug, PartialEq, Eq, Structural)]
pub struct HandClass {
    pub high: u8,
    pub low: u8,
    pub suited: bool,
}

/// The number a rank counts as.
pub open spec fn rank_number(rank: Rank) -> u8 {
    (rank.ord() + 2) as u8
}

/// Whether two suits go with a class.
pub open spec fn suits_go(class: HandClass, first: int, second: int) -> bool {
    if class.high == class.low {
        first < second && !class.suited
    } else if class.suited {
        first == second
    } else {
        first != second
    }
}

/// The hands of a class whose suits are among the first `n` pairs of suits.
pub open spec fn class_hands(class: HandClass, n: nat) -> Seq<Combo>
    decreases n,
{
    if n == 0 {
        Seq::empty()
    } else {
        let front = class_hands(class, (n - 1) as nat);
        let first = (n - 1) / 4;
        let second = (n - 1) % 4;
        if suits_go(class, first, second) {
            front.push(
                Combo {
                    first: Card { rank: Rank::at(class.high - 2), suit: Suit::at(first) },
                    second: Card { rank: Rank::at(class.low - 2), suit: Suit::at(second) },
                },
            )
        } else {
            front
        }
    }
}

impl HandClass {
    /// Whether the class names ranks of the deck, the higher first.
    pub open spec fn valid(self) -> bool {
        2 <= self.low <= self.high <= 14
    }

    /// The hands of the class, by suits in ascending order.
    pub open spec fn combos_spec(self) -> Seq<Combo> {
        class_hands(self, 16)
    }

    /// The class of two ranks.
    pub fn new(high: u8, low: u8, suited: bool) -> (r: Self)
        ensures
            r == (HandClass { high, low, suited }),
    {
        HandClass { high, low, suited }
    }

    /// The hands of the class, by suits in ascending order.
    pub fn combos(self) -> (r: Vec<Combo>)
        requires
            self.valid(),
        ensures
            r@ == self.combos_spec(),
            r@.len() == self.combo_count(),
    {
        let high: Rank = Rank::from_index((self.high - 2) as usize);
        let low: Rank = Rank::from_index((self.low - 2) as usize);
        let mut hands: Vec<Combo> = Vec::new();
        for n in 0..16usize
            invariant
                self.valid(),
                high == Rank::at(self.high - 2),
                low == Rank::at(self.low - 2),
                hands@ == class_hands(self, n as nat),
        {
            let first: usize = n / 4;
            let second: usize = n % 4;
            let goes: bool = if self.high == self.low {
                first < second && !self.suited
            } else if self.suited {
                first == second
            } else {
                first != second
            };
            if goes {
                hands.push(
                    Combo {
                        first: Card { rank: high, suit: Suit::from_index(first) },
                        second: Card { rank: low, suit: Suit::from_index(second) },
                    },
                );
            }
        }
        proof {
            class_sizes(self);
        }
        hands
    }

    /// How many hands the class has: six pairs, four suited or twelve offsuit hands.
    pub open spec fn combo_count(self) -> nat {
        if self.high == self.low {
            if self.suited {
                0
            } else {
                6
            }
        } else if self.suited {
            4
        } else {
            12
        }
    }

    /// The letters of the class.
    pub open spec fn label_spec(self) -> Seq<char> {
        let ranks = seq![
            Rank::at(self.high - 2).letter_spec(),
            Rank::at(self.low - 2).letter_spec(),
        ];
        if self.high == self.low {
            ranks
        } else if self.suited {
            ranks.push('s')
        } else {
            ranks.push('o')
        }
    }

    /// The letters of the class.
    pub fn label(self) -> (r: String)
        requires
            self.valid(),
        ensures
            r@ == self.label_spec(),
    {
        let high: Rank = Rank::from_index((self.high - 2) as usize);
        let low: Rank = Rank::from_index((self.low - 2) as usize);
        proof {
            reveal_strlit("");
            reveal_strlit("s");
            reveal_strlit("o");
        }
        let kind: &str = if self.high == self.low {
            ""
        } else if self.suited {
            "s"
        } else {
            "o"
        };
        let text: String = high.letter().to_owned().concat(low.letter()).concat(kind);
        assert(text@ =~= self.label_spec());
        text
    }
}

/// A class has six pairs, four suited or twelve offsuit hands.
pub proof fn class_sizes(class: HandClass)
    ensures
        class.combos_spec().len() == class.combo_count(),
{
    reveal_with_fuel(class_hands, 17);
}

/// The class of a hand.
pub open spec fn combo_class_spec(combo: Combo) -> HandClass {
    let first = rank_number(combo.first.rank);
    let second = rank_number(combo.second.rank);
    HandClass {
        high: if first > second {
            first
        } else {
            second
        },
        low: if first > second {
            second
        } else {
            first
        },
        suited: combo.first.suit == combo.second.suit && first != second,
    }
}

/// The class of a hand.
pub fn combo_class(combo: Combo) -> (r: HandClass)
    ensures
        r == combo_class_spec(combo),
        r.valid(),
{
    let first: u8 = (combo.first.rank.index() + 2) as u8;
    let second: u8 = (combo.second.rank.index() + 2) as u8;
    HandClass::new(
        if first > second {
            first
        } else {
            second
        },
        if first > second {
            second
        } else {
            first
        },
        combo.first.suit == combo.second.suit && first != second,
    )
}

/// The hands of a class are of that class and hold two different cards.
pub proof fn class_hands_are_of_class(class: HandClass, i: int, n: nat)
    requires
        class.valid(),
        0 <= i < class_hands(class, n).len(),
        n <= 16,
    ensures
        combo_class_spec(class_hands(class, n)[i]) == class,
        class_hands(class, n)[i].first != class_hands(class, n)[i].second,
    decreases n,
{
    if n > 0 {
        let front = class_hands(class, (n - 1) as nat);
        if i < front.len() {
            class_hands_are_of_class(class, i, (n - 1) as nat);
        } else {
            let first = (n - 1) / 4;
            let second = (n - 1) % 4;
            assert(Rank::at(class.high - 2).ord() == class.high - 2);
            assert(Rank::at(class.low - 2).ord() == class.low - 2);
            assert(Suit::at(first).ord() == first);
            assert(Suit::at(second).ord() == second);
        }
    }
}

/// The classes of one high rank whose lower rank is above a bound, from the highest down.
pub open spec fn class_row(high: int, n: nat) -> Seq<HandClass>
    decreases n,
{
    if n == 0 {
        Seq::empty()
    } else {
        let low = high - (n - 1);
        let front = class_row(high, (n - 1) as nat);
        if low == high {
            front.push(HandClass { high: high as u8, low: low as u8, suited: false })
        } else {
            front.push(HandClass { high: high as u8, low: low as u8, suited: true }).push(
                HandClass { high: high as u8, low: low as u8, suited: false },
            )
        }
    }
}

/// The classes of the `n` highest ranks, from the highest down.
pub open spec fn class_rows(n: nat) -> Seq<HandClass>
    decreases n,
{
    if n == 0 {
        Seq::empty()
    } else {
        class_rows((n - 1) as nat) + class_row(15 - n, (14 - n) as nat)
    }
}

/// All classes of starting hands, from the highest down.
pub fn all_hand_classes() -> (r: Vec<HandClass>)
    ensures
        r@ == class_rows(13),
        r@.len() == 169,
        forall|i: int| 0 <= i < r@.len() ==> (#[trigger] r@[i]).valid(),
{
    let mut classes: Vec<HandClass> = Vec::new();
    for n in 0..13u8
        invariant
            classes@ == class_rows(n as nat),
            forall|i: int| 0 <= i < classes@.len() ==> (#[trigger] classes@[i]).valid(),
            classes@.len() == n * (26 - n),
    {
        let high: u8 = 14 - n;
        let ghost before = classes@;
        for k in 0..high - 1
            invariant
                n < 13,
                high == 14 - n,
                before.len() == n * (26 - n),
                classes@ =~= before + class_row(high as int, k as nat),
                forall|i: int| 0 <= i < classes@.len() ==> (#[trigger] classes@[i]).valid(),
                classes@.len() == before.len() + (if k == 0 {
                    0
                } else {
                    2 * k - 1
                }),
        {
            let low: u8 = high - k;
            if low != high {
                classes.push(HandClass::new(high, low, true));
            }
            classes.push(HandClass::new(high, low, false));
        }
        assert(n * (26 - n) + 2 * (13 - n) - 1 == (n + 1) * (26 - (n + 1))) by (nonlinear_arith);
    }
    classes
}

} // verus!
