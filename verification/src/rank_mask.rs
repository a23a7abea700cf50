//! Sets of ranks as bit masks.
use vstd::prelude::*;

verus! {

/// A mask with one bit for each of the thirteen ranks, deuce lowest.
pub open spec fn is_mask(mask: u16) -> bool {
    mask < 0x2000
}

/// Whether the rank at a position is in the mask.
pub open spec fn holds(mask: u16, position: int) -> bool {
    mask & (1u16 << (position as u16)) != 0
}

/// Whether one mask holds every rank of another.
pub open spec fn within(inner: u16, outer: u16) -> bool {
    inner & !outer == 0
}

/// The value of the highest rank, two for a deuce to fourteen for an ace; zero for the empty mask.
pub open spec fn top(m: u16) -> u16 {
    if m & 0x1000 != 0 {
        14
    } else if m & 0x800 != 0 {
        13
    } else if m & 0x400 != 0 {
        12
    } else if m & 0x200 != 0 {
        11
    } else if m & 0x100 != 0 {
        10
    } else if m & 0x80 != 0 {
        9
    } else if m & 0x40 != 0 {
        8
    } else if m & 0x20 != 0 {
        7
    } else if m & 0x10 != 0 {
        6
    } else if m & 0x8 != 0 {
        5
    } else if m & 0x4 != 0 {
        4
    } else if m & 0x2 != 0 {
        3
    } else if m & 0x1 != 0 {
        2
    } else {
        0
    }
}

/// The mask without its highest rank.
pub open spec fn rest(m: u16) -> u16 {
    if m & 0x1000 != 0 {
        m & 0xfff
    } else if m & 0x800 != 0 {
        m & 0x7ff
    } else if m & 0x400 != 0 {
        m & 0x3ff
    } else if m & 0x200 != 0 {
        m & 0x1ff
    } else if m & 0x100 != 0 {
        m & 0xff
    } else if m & 0x80 != 0 {
        m & 0x7f
    } else if m & 0x40 != 0 {
        m & 0x3f
    } else if m & 0x20 != 0 {
        m & 0x1f
    } else if m & 0x10 != 0 {
        m & 0xf
    } else if m & 0x8 != 0 {
        m & 0x7
    } else if m & 0x4 != 0 {
        m & 0x3
    } else if m & 0x2 != 0 {
        m & 0x1
    } else {
        0
    }
}

/// The value of the highest rank of the highest straight in the mask; zero if there is none. An ace
/// also counts below a deuce.
pub open spec fn straight(m: u16) -> u16 {
    if m & 0x1f00 == 0x1f00 {
        14
    } else if m & 0xf80 == 0xf80 {
        13
    } else if m & 0x7c0 == 0x7c0 {
        12
    } else if m & 0x3e0 == 0x3e0 {
        11
    } else if m & 0x1f0 == 0x1f0 {
        10
    } else if m & 0xf8 == 0xf8 {
        9
    } else if m & 0x7c == 0x7c {
        8
    } else if m & 0x3e == 0x3e {
        7
    } else if m & 0x1f == 0x1f {
        6
    } else if m & 0x100f == 0x100f {
        5
    } else {
        0
    }
}

/// The ranks that make a straight of the given height.
pub open spec fn straight_mask(high: u16) -> u16 {
    if high == 14 {
        0x1f00
    } else if high == 13 {
        0xf80
    } else if high == 12 {
        0x7c0
    } else if high == 11 {
        0x3e0
    } else if high == 10 {
        0x1f0
    } else if high == 9 {
        0xf8
    } else if high == 8 {
        0x7c
    } else if high == 7 {
        0x3e
    } else if high == 6 {
        0x1f
    } else {
        0x100f
    }
}

/// The mask of one rank, given by its value.
pub open spec fn single(value: u16) -> u16 {
    (1u16 << value) >> 2
}

/// How many ranks the mask holds.
pub open spec fn size(mask: u16) -> nat {
    (mask & 1) as nat + ((mask >> 1) & 1) as nat + ((mask >> 2) & 1) as nat + ((mask >> 3) & 1) as nat
        + ((mask >> 4) & 1) as nat + ((mask >> 5) & 1) as nat + ((mask >> 6) & 1) as nat + ((mask
        >> 7) & 1) as nat + ((mask >> 8) & 1) as nat + ((mask >> 9) & 1) as nat + ((mask >> 10) & 1)
        as nat + ((mask >> 11) & 1) as nat + ((mask >> 12) & 1) as nat
}

pub proof fn lemma_top_bounds(m: u16)
    by (bit_vector)
    requires
        m < 0x2000,
    ensures
        m == 0 <==> top(m) == 0,
        m != 0 ==> 2 <= top(m) <= 14,
        rest(m) < 0x2000,
        rest(m) & !m == 0,
        m != 0 ==> rest(m) < m,
        m != 0 ==> m == rest(m) | single(top(m)),
        m != 0 ==> rest(m) & single(top(m)) == 0,
        m != 0 ==> m & single(top(m)) != 0,
{
}

pub proof fn lemma_top_within(m: u16, n: u16)
    by (bit_vector)
    requires
        n < 0x2000,
        m & !n == 0,
    ensures
        m < 0x2000,
        top(m) <= top(n),
        top(m) == top(n) ==> rest(m) & !rest(n) == 0,
        straight(m) <= straight(n),
{
}

pub proof fn lemma_straight(m: u16)
    by (bit_vector)
    requires
        m < 0x2000,
    ensures
        straight(m) == 0 || 5 <= straight(m) <= 14,
        straight(m) != 0 ==> straight_mask(straight(m)) & !m == 0,
{
}

pub proof fn lemma_straight_mask(high: u16)
    by (bit_vector)
    requires
        5 <= high <= 14,
    ensures
        straight(straight_mask(high)) == high,
        straight_mask(high) < 0x2000,
        straight_mask(high) != 0,
{
}

/// A mask is within another exactly if its ranks are.
pub proof fn lemma_within(m: u16, n: u16)
    requires
        is_mask(m),
        forall|i: int| 0 <= i < 13 && #[trigger] holds(m, i) ==> holds(n, i),
    ensures
        within(m, n),
{
    assert(holds(m, 0) ==> holds(n, 0));
    assert(holds(m, 1) ==> holds(n, 1));
    assert(holds(m, 2) ==> holds(n, 2));
    assert(holds(m, 3) ==> holds(n, 3));
    assert(holds(m, 4) ==> holds(n, 4));
    assert(holds(m, 5) ==> holds(n, 5));
    assert(holds(m, 6) ==> holds(n, 6));
    assert(holds(m, 7) ==> holds(n, 7));
    assert(holds(m, 8) ==> holds(n, 8));
    assert(holds(m, 9) ==> holds(n, 9));
    assert(holds(m, 10) ==> holds(n, 10));
    assert(holds(m, 11) ==> holds(n, 11));
    assert(holds(m, 12) ==> holds(n, 12));
    assert(m & !n == 0) by (bit_vector)
        requires
            m < 0x2000,
            m & (1u16 << 0u16) != 0 ==> n & (1u16 << 0u16) != 0,
            m & (1u16 << 1u16) != 0 ==> n & (1u16 << 1u16) != 0,
            m & (1u16 << 2u16) != 0 ==> n & (1u16 << 2u16) != 0,
            m & (1u16 << 3u16) != 0 ==> n & (1u16 << 3u16) != 0,
            m & (1u16 << 4u16) != 0 ==> n & (1u16 << 4u16) != 0,
            m & (1u16 << 5u16) != 0 ==> n & (1u16 << 5u16) != 0,
            m & (1u16 << 6u16) != 0 ==> n & (1u16 << 6u16) != 0,
            m & (1u16 << 7u16) != 0 ==> n & (1u16 << 7u16) != 0,
            m & (1u16 << 8u16) != 0 ==> n & (1u16 << 8u16) != 0,
            m & (1u16 << 9u16) != 0 ==> n & (1u16 << 9u16) != 0,
            m & (1u16 << 10u16) != 0 ==> n & (1u16 << 10u16) != 0,
            m & (1u16 << 11u16) != 0 ==> n & (1u16 << 11u16) != 0,
            m & (1u16 << 12u16) != 0 ==> n & (1u16 << 12u16) != 0,
    ;
}

pub proof fn lemma_within_use(m: u16, n: u16, i: int)
    requires
        within(m, n),
        0 <= i < 13,
        holds(m, i),
    ensures
        holds(n, i),
{
    let k = i as u16;
    assert(n & (1u16 << k) != 0) by (bit_vector)
        requires
            m & !n == 0,
            m & (1u16 << k) != 0,
            k < 13,
    ;
}

/// Masks that are within each other are one mask.
pub proof fn lemma_within_both(m: u16, n: u16)
    requires
        within(m, n),
        within(n, m),
    ensures
        m == n,
{
    assert(m == n) by (bit_vector)
        requires
            m & !n == 0,
            n & !m == 0,
    ;
}

/// What the bit operations do to single ranks.
pub proof fn lemma_bits(m: u16, n: u16, i: int, j: int)
    requires
        0 <= i < 13,
        0 <= j < 13,
    ensures
        holds(m | n, i) == (holds(m, i) || holds(n, i)),
        holds(m & n, i) == (holds(m, i) && holds(n, i)),
        holds(m & !n, i) == (holds(m, i) && !holds(n, i)),
        holds(1u16 << (j as u16), i) == (i == j),
        !holds(0, i),
{
    let a = i as u16;
    let b = j as u16;
    assert(((m | n) & (1u16 << a) != 0) == (m & (1u16 << a) != 0 || n & (1u16 << a) != 0) && ((m & n)
        & (1u16 << a) != 0) == (m & (1u16 << a) != 0 && n & (1u16 << a) != 0) && ((m & !n) & (1u16
        << a) != 0) == (m & (1u16 << a) != 0 && n & (1u16 << a) == 0) && ((1u16 << b) & (1u16 << a)
        != 0) == (a == b) && 0u16 & (1u16 << a) == 0) by (bit_vector)
        requires
            a < 13,
            b < 13,
    ;
}

pub proof fn lemma_mask_ops(m: u16, n: u16, j: u16)
    by (bit_vector)
    requires
        m < 0x2000,
        n < 0x2000,
        j < 13,
    ensures
        m | n < 0x2000,
        m & n < 0x2000,
        m & !n < 0x2000,
        1u16 << j < 0x2000,
        (m & !n) & !m == 0,
        m & !(m | n) == 0,
        n & !(m | n) == 0,
{
}

} // verus!
