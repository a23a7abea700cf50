//! The value of a poker hand, from the ranks it holds.
use vstd::prelude::*;
use crate::rank_mask::{
    is_mask, lemma_straight, lemma_top_bounds, lemma_top_within, rest, single, straight, top,
    within,
};

verus! {

/// The powers of sixteen that separate the digits of a hand value.
pub open spec fn weight(k: nat) -> nat {
    if k == 0 {
        1
    } else if k == 1 {
        16
    } else if k == 2 {
        256
    } else if k == 3 {
        4096
    } else if k == 4 {
        65536
    } else {
        1048576
    }
}

/// The highest `n` ranks of a mask as digits, the first with the weight below `w`.
pub open spec fn lead(m: u16, n: nat, w: nat) -> nat
    decreases n,
{
    if n == 0 || w == 0 || m == 0 {
        0
    } else {
        top(m) as nat * weight((w - 1) as nat) + lead(rest(m), (n - 1) as nat, (w - 1) as nat)
    }
}

/// The two highest ranks of a mask.
pub open spec fn top_two(m: u16) -> u16 {
    m & !rest(rest(m))
}

/// The value of a hand: a category, then up to five ranks that settle ties, each a digit.
///
/// `a1` to `a4` hold the ranks that occur at least once to four times, and `f` the ranks of a suit
/// that occurs five times or more, if there is one.
pub open spec fn hand_value(a1: u16, a2: u16, a3: u16, a4: u16, f: u16) -> nat {
    if straight(f) != 0 {
        8 * weight(5) + straight(f) as nat * weight(4)
    } else if a4 != 0 {
        7 * weight(5) + top(a4) as nat * weight(4) + top(a1 & !a4) as nat * weight(3)
    } else if rest(a3) != 0 {
        6 * weight(5) + top(a3) as nat * weight(4) + top(rest(a3)) as nat * weight(3)
    } else if a3 != 0 && a2 & !a3 != 0 {
        6 * weight(5) + top(a3) as nat * weight(4) + top(a2 & !a3) as nat * weight(3)
    } else if f != 0 {
        5 * weight(5) + lead(f, 5, 5)
    } else if straight(a1) != 0 {
        4 * weight(5) + straight(a1) as nat * weight(4)
    } else if a3 != 0 {
        3 * weight(5) + top(a3) as nat * weight(4) + lead(a1 & !a3, 2, 4)
    } else if rest(a2) != 0 {
        2 * weight(5) + top(a2) as nat * weight(4) + top(rest(a2)) as nat * weight(3) + lead(
            a1 & !top_two(a2),
            1,
            3,
        )
    } else if a2 != 0 {
        weight(5) + top(a2) as nat * weight(4) + lead(a1 & !a2, 3, 4)
    } else {
        lead(a1, 5, 5)
    }
}

/// The masks of a hand: what occurs twice occurs once, and so on; few enough cards that there is one
/// quadruple at most, and nothing besides two triples that occurs twice.
pub open spec fn masks_fit(a1: u16, a2: u16, a3: u16, a4: u16, f: u16) -> bool {
    &&& is_mask(a1)
    &&& within(a2, a1)
    &&& within(a3, a2)
    &&& within(a4, a3)
    &&& within(f, a1)
    &&& a4 != 0 ==> rest(a4) == 0
    &&& rest(a3) != 0 ==> a2 == a3
}

pub proof fn lemma_lead_bound(m: u16, n: nat, w: nat)
    requires
        is_mask(m),
        w <= 5,
    ensures
        lead(m, n, w) < weight(w),
    decreases n,
{
    lemma_top_bounds(m);
    if n == 0 || w == 0 || m == 0 {
    } else {
        lemma_lead_bound(rest(m), (n - 1) as nat, (w - 1) as nat);
    }
}

pub proof fn lemma_lead_within(m: u16, o: u16, n: nat, w: nat)
    requires
        is_mask(o),
        within(m, o),
        w <= 5,
    ensures
        lead(m, n, w) <= lead(o, n, w),
    decreases n,
{
    lemma_top_within(m, o);
    lemma_top_bounds(m);
    lemma_top_bounds(o);
    if n == 0 || w == 0 || m == 0 {
    } else {
        lemma_lead_bound(rest(m), (n - 1) as nat, (w - 1) as nat);
        if top(m) == top(o) {
            lemma_lead_within(rest(m), rest(o), (n - 1) as nat, (w - 1) as nat);
        }
    }
}

proof fn lemma_masks_sub(m: u16, n: u16, p: u16)
    by (bit_vector)
    requires
        n < 0x2000,
        m == n || m & !n == 0,
    ensures
        m < 0x2000,
        (m & !p) < 0x2000,
        (n & !p) < 0x2000,
        (m & !p) & !(n & !p) == 0,
{
}

proof fn lemma_single(m: u16, n: u16)
    requires
        is_mask(n),
        within(m, n),
        m != 0,
        rest(n) == 0,
    ensures
        m == n,
{
    lemma_top_bounds(n);
    let v = top(n);
    assert(n != 0) by (bit_vector)
        requires
            m & !n == 0,
            m != 0,
    ;
    assert(m == n) by (bit_vector)
        requires
            m & !n == 0,
            m != 0,
            n == 0u16 | ((1u16 << v) >> 2),
            2 <= v <= 14,
    ;
}

proof fn lemma_within_trans(m: u16, n: u16, o: u16)
    by (bit_vector)
    requires
        m & !n == 0,
        n & !o == 0,
    ensures
        m & !o == 0,
{
}

/// The category a hand's masks fall into, with bounds on the value.
proof fn lemma_value_bounds(a1: u16, a2: u16, a3: u16, a4: u16, f: u16)
    requires
        masks_fit(a1, a2, a3, a4, f),
    ensures
        hand_value(a1, a2, a3, a4, f) < 9 * weight(5),
        straight(f) == 0 ==> hand_value(a1, a2, a3, a4, f) < 8 * weight(5),
        straight(f) == 0 && a4 == 0 ==> hand_value(a1, a2, a3, a4, f) < 7 * weight(5),
        straight(f) == 0 && a4 == 0 && rest(a3) == 0 && (a3 == 0 || a2 & !a3 == 0) ==> hand_value(
            a1,
            a2,
            a3,
            a4,
            f,
        ) < 6 * weight(5),
        straight(f) == 0 && a4 == 0 && rest(a3) == 0 && (a3 == 0 || a2 & !a3 == 0) && f == 0
            ==> hand_value(a1, a2, a3, a4, f) < 5 * weight(5),
        straight(f) == 0 && a4 == 0 && rest(a3) == 0 && (a3 == 0 || a2 & !a3 == 0) && f == 0
            && straight(a1) == 0 ==> hand_value(a1, a2, a3, a4, f) < 4 * weight(5),
        straight(f) == 0 && a4 == 0 && a3 == 0 && f == 0 && straight(a1) == 0 ==> hand_value(
            a1,
            a2,
            a3,
            a4,
            f,
        ) < 3 * weight(5),
        straight(f) == 0 && a4 == 0 && a3 == 0 && f == 0 && straight(a1) == 0 && rest(a2) == 0
            ==> hand_value(a1, a2, a3, a4, f) < 2 * weight(5),
        straight(f) == 0 && a4 == 0 && a3 == 0 && f == 0 && straight(a1) == 0 && a2 == 0
            ==> hand_value(a1, a2, a3, a4, f) < weight(5),
{
    lemma_within_trans(a3, a2, a1);
    lemma_within_trans(a4, a3, a1);
    lemma_masks_sub(a1, a1, a4);
    lemma_masks_sub(a2, a1, a3);
    lemma_masks_sub(a3, a1, a4);
    lemma_masks_sub(a1, a1, a3);
    lemma_masks_sub(a1, a1, a2);
    lemma_masks_sub(f, a1, a2);
    lemma_masks_sub(a4, a1, a2);
    lemma_masks_sub(a1, a1, top_two(a2));
    lemma_top_bounds(a1);
    lemma_top_bounds(a2);
    lemma_top_bounds(a3);
    lemma_top_bounds(a4);
    lemma_top_bounds(f);
    lemma_top_bounds(rest(a3));
    lemma_top_bounds(rest(a2));
    lemma_top_bounds(a1 & !a4);
    lemma_top_bounds(a2 & !a3);
    lemma_straight(f);
    lemma_straight(a1);
    lemma_lead_bound(f, 5, 5);
    lemma_lead_bound(a1, 5, 5);
    lemma_lead_bound(a1 & !a3, 2, 4);
    lemma_lead_bound(a1 & !a2, 3, 4);
    lemma_lead_bound(a1 & !top_two(a2), 1, 3);
    assert(rest(0) == 0) by (bit_vector);
}

/// More cards never make a hand worse.
#[verifier::spinoff_prover]
pub proof fn hand_value_monotone(
    b1: u16,
    b2: u16,
    b3: u16,
    b4: u16,
    g: u16,
    a1: u16,
    a2: u16,
    a3: u16,
    a4: u16,
    f: u16,
)
    requires
        masks_fit(a1, a2, a3, a4, f),
        masks_fit(b1, b2, b3, b4, g),
        within(b1, a1),
        within(b2, a2),
        within(b3, a3),
        within(b4, a4),
        within(g, f),
    ensures
        hand_value(b1, b2, b3, b4, g) <= hand_value(a1, a2, a3, a4, f),
{
    lemma_value_bounds(b1, b2, b3, b4, g);
    lemma_within_trans(a3, a2, a1);
    lemma_within_trans(a4, a3, a1);
    lemma_masks_sub(a3, a1, 0);
    lemma_masks_sub(a2, a1, 0);
    lemma_masks_sub(a4, a1, 0);
    lemma_masks_sub(f, a1, 0);
    lemma_top_within(g, f);
    lemma_top_within(b1, a1);
    lemma_top_within(b2, a2);
    lemma_top_within(b3, a3);
    lemma_top_within(b4, a4);
    lemma_top_bounds(a1);
    lemma_top_bounds(a2);
    lemma_top_bounds(a3);
    lemma_top_bounds(a4);
    lemma_top_bounds(f);
    lemma_top_bounds(b1);
    lemma_top_bounds(b2);
    lemma_top_bounds(b3);
    lemma_top_bounds(b4);
    lemma_top_bounds(g);
    assert(rest(0) == 0) by (bit_vector);
    assert(straight(0) == 0) by (bit_vector);
    if straight(g) != 0 {
        assert(straight(f) != 0);
    } else if straight(f) != 0 {
    } else if a4 != 0 {
        if b4 != 0 {
            lemma_single(b4, a4);
            lemma_masks_sub(b1, a1, a4);
            lemma_top_within(b1 & !b4, a1 & !a4);
        }
    } else if rest(a3) != 0 {
        assert(b4 == 0);
        if rest(b3) != 0 {
            lemma_top_bounds(rest(b3));
            if top(b3) == top(a3) {
                lemma_top_within(rest(b3), rest(a3));
            }
        } else if b3 != 0 && b2 & !b3 != 0 {
            if top(b3) == top(a3) {
                // the only pair beside the first triple is the second one
                lemma_masks_sub(b2, a3, b3);
                let t = single(top(a3));
                let r = rest(a3);
                assert((a3 & !b3) & !r == 0) by (bit_vector)
                    requires
                        a3 == r | t,
                        b3 == 0u16 | t,
                ;
                lemma_within_trans(b2 & !b3, a3 & !b3, r);
                lemma_top_within(b2 & !b3, r);
            } else {
                lemma_masks_sub(b2, b1, b3);
                lemma_top_bounds(b2 & !b3);
            }
        }
    } else if a3 != 0 && a2 & !a3 != 0 {
        if b3 != 0 {
            lemma_single(b3, a3);
            lemma_masks_sub(b2, a2, a3);
            lemma_top_within(b2 & !b3, a2 & !a3);
        }
    } else {
        if b3 != 0 {
            lemma_single(b3, a3);
            lemma_masks_sub(b2, a2, a3);
            lemma_top_within(b2 & !b3, a2 & !a3);
            lemma_top_bounds(b2 & !b3);
        }
        assert(!(b3 != 0 && b2 & !b3 != 0));
        if f != 0 {
            lemma_lead_within(g, f, 5, 5);
        } else if straight(a1) != 0 {
        } else if a3 != 0 {
            if b3 != 0 {
                lemma_masks_sub(b1, a1, a3);
                lemma_lead_within(b1 & !b3, a1 & !a3, 2, 4);
            }
        } else if rest(a2) != 0 {
            if rest(b2) != 0 {
                lemma_masks_sub(b1, a1, top_two(b2));
                lemma_lead_bound(b1 & !top_two(b2), 1, 3);
                if top(b2) == top(a2) {
                    lemma_top_bounds(rest(a2));
                    lemma_top_bounds(rest(b2));
                    lemma_top_within(rest(b2), rest(a2));
                    if top(rest(b2)) == top(rest(a2)) {
                        let s = single(top(a2));
                        let t = single(top(rest(a2)));
                        let x = rest(rest(a2));
                        let y = rest(rest(b2));
                        let ra = rest(a2);
                        let rb = rest(b2);
                        assert(a2 & !x == b2 & !y) by (bit_vector)
                            requires
                                a2 == ra | s,
                                ra == x | t,
                                b2 == rb | s,
                                rb == y | t,
                                ra & s == 0,
                                rb & s == 0,
                                x & t == 0,
                                y & t == 0,
                                x & !ra == 0,
                                y & !rb == 0,
                        ;
                        lemma_lead_within(b1 & !top_two(b2), a1 & !top_two(a2), 1, 3);
                    }
                } else {
                    lemma_top_bounds(rest(b2));
                }
            }
        } else if a2 != 0 {
            if b2 != 0 {
                lemma_single(b2, a2);
                lemma_masks_sub(b1, a1, a2);
                lemma_lead_within(b1 & !b2, a1 & !a2, 3, 4);
            }
        } else {
            lemma_lead_within(b1, a1, 5, 5);
        }
    }
}

} // verus!
