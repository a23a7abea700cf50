//! Stable sorting by key.
use vstd::prelude::*;

verus! {

/// A sort key of up to four parts, compared from the first part on.
#[derive(Clone, Copy, Debug, PartialEq, Eq, Structural)]
pub struct SortKey {
    pub first: u64,
    pub second: u64,
    pub third: u64,
    pub fourth: u64,
}

impl SortKey {
    /// Whether this key is smaller than another.
    pub open spec fn less(self, other: Self) -> bool {
        ||| self.first < other.first
        ||| self.first == other.first && self.second < other.second
        ||| self.first == other.first && self.second == other.second && self.third < other.third
        ||| self.first == other.first && self.second == other.second && self.third == other.third
            && self.fourth < other.fourth
    }

    /// A key of one part.
    pub fn one(first: u64) -> (r: SortKey)
        ensures
            r == (SortKey { first, second: 0, third: 0, fourth: 0 }),
    {
        SortKey { first, second: 0, third: 0, fourth: 0 }
    }

    /// Whether this key is smaller than another.
    pub fn is_less(self, other: Self) -> (r: bool)
        ensures
            r == self.less(other),
    {
        if self.first != other.first {
            self.first < other.first
        } else if self.second != other.second {
            self.second < other.second
        } else if self.third != other.third {
            self.third < other.third
        } else {
            self.fourth < other.fourth
        }
    }
}

/// Whether the item at one position comes before the item at another: by key, and among equal keys
/// by position.
pub open spec fn comes_before(keys: Seq<SortKey>, a: int, b: int) -> bool {
    keys[a].less(keys[b]) || (keys[a] == keys[b] && a < b)
}

/// Whether a list names each of the positions from `lo` to `hi` once, in sorted order.
pub open spec fn is_sorting(keys: Seq<SortKey>, lo: int, hi: int, list: Seq<usize>) -> bool {
    &&& list.len() == hi - lo
    &&& forall|i: int| 0 <= i < list.len() ==> lo <= #[trigger] list[i] < hi
    &&& forall|i: int, j: int|
        0 <= i < j < list.len() ==> comes_before(
            keys,
            #[trigger] list[i] as int,
            #[trigger] list[j] as int,
        )
    &&& forall|x: usize| lo <= x < hi ==> #[trigger] list.contains(x)
}

/// Merges two sorted lists over adjacent stretches.
fn merge(keys: &[SortKey], lo: usize, mid: usize, hi: usize, left: &Vec<usize>, right: &Vec<usize>) -> (r:
    Vec<usize>)
    requires
        lo <= mid <= hi <= keys@.len(),
        is_sorting(keys@, lo as int, mid as int, left@),
        is_sorting(keys@, mid as int, hi as int, right@),
    ensures
        is_sorting(keys@, lo as int, hi as int, r@),
{
    let mut out: Vec<usize> = Vec::new();
    let mut i: usize = 0;
    let mut j: usize = 0;
    while i < left.len() || j < right.len()
        invariant
            lo <= mid <= hi <= keys@.len(),
            is_sorting(keys@, lo as int, mid as int, left@),
            is_sorting(keys@, mid as int, hi as int, right@),
            i <= left@.len(),
            j <= right@.len(),
            out@.len() == i + j,
            forall|k: int| 0 <= k < out@.len() ==> lo <= #[trigger] out@[k] < hi,
            forall|a: int, b: int|
                0 <= a < b < out@.len() ==> comes_before(
                    keys@,
                    #[trigger] out@[a] as int,
                    #[trigger] out@[b] as int,
                ),
            forall|a: int, b: int|
                0 <= a < out@.len() && i <= b < left@.len() ==> comes_before(
                    keys@,
                    #[trigger] out@[a] as int,
                    #[trigger] left@[b] as int,
                ),
            forall|a: int, b: int|
                0 <= a < out@.len() && j <= b < right@.len() ==> comes_before(
                    keys@,
                    #[trigger] out@[a] as int,
                    #[trigger] right@[b] as int,
                ),
            forall|b: int| 0 <= b < i ==> out@.contains(#[trigger] left@[b]),
            forall|b: int| 0 <= b < j ==> out@.contains(#[trigger] right@[b]),
        decreases left@.len() - i + right@.len() - j,
    {
        let ghost before = out@;
        let take_left: bool = if i >= left.len() {
            false
        } else if j >= right.len() {
            true
        } else {
            !keys[right[j]].is_less(keys[left[i]])
        };
        if take_left {
            out.push(left[i]);
            proof {
                assert forall|b: int| 0 <= b < i + 1 implies out@.contains(#[trigger] left@[b]) by {
                    if b < i {
                        let k = choose|k: int| 0 <= k < before.len() && before[k] == left@[b];
                        assert(out@[k] == left@[b]);
                    } else {
                        assert(out@[out@.len() - 1] == left@[b]);
                    }
                }
                assert forall|b: int| 0 <= b < j implies out@.contains(#[trigger] right@[b]) by {
                    let k = choose|k: int| 0 <= k < before.len() && before[k] == right@[b];
                    assert(out@[k] == right@[b]);
                }
            }
            i = i + 1;
        } else {
            out.push(right[j]);
            proof {
                assert forall|b: int| 0 <= b < j + 1 implies out@.contains(#[trigger] right@[b]) by {
                    if b < j {
                        let k = choose|k: int| 0 <= k < before.len() && before[k] == right@[b];
                        assert(out@[k] == right@[b]);
                    } else {
                        assert(out@[out@.len() - 1] == right@[b]);
                    }
                }
                assert forall|b: int| 0 <= b < i implies out@.contains(#[trigger] left@[b]) by {
                    let k = choose|k: int| 0 <= k < before.len() && before[k] == left@[b];
                    assert(out@[k] == left@[b]);
                }
            }
            j = j + 1;
        }
    }
    proof {
        assert forall|x: usize| lo <= x < hi implies #[trigger] out@.contains(x) by {
            if x < mid {
                assert(left@.contains(x));
                let k = choose|k: int| 0 <= k < left@.len() && left@[k] == x;
                assert(out@.contains(left@[k]));
            } else {
                assert(right@.contains(x));
                let k = choose|k: int| 0 <= k < right@.len() && right@[k] == x;
                assert(out@.contains(right@[k]));
            }
        }
    }
    out
}

fn sort_stretch(keys: &[SortKey], lo: usize, hi: usize) -> (r: Vec<usize>)
    requires
        lo <= hi <= keys@.len(),
    ensures
        is_sorting(keys@, lo as int, hi as int, r@),
    decreases hi - lo,
{
    let mut single: Vec<usize> = Vec::new();
    if lo == hi {
        return single;
    }
    if hi - lo == 1 {
        single.push(lo);
        proof {
            assert forall|x: usize| lo <= x < hi implies #[trigger] single@.contains(x) by {
                assert(single@[0] == x);
            }
        }
        return single;
    }
    let mid: usize = lo + (hi - lo) / 2;
    let left: Vec<usize> = sort_stretch(keys, lo, mid);
    let right: Vec<usize> = sort_stretch(keys, mid, hi);
    merge(keys, lo, mid, hi, &left, &right)
}

/// The positions of the keys in sorted order, equal keys in their given order.
pub open spec fn sorting(keys: Seq<SortKey>) -> Seq<usize> {
    choose|list: Seq<usize>| is_sorting(keys, 0, keys.len() as int, list)
}

/// The positions of the keys in sorted order, equal keys in their given order.
pub fn sorted_positions(keys: &[SortKey]) -> (r: Vec<usize>)
    ensures
        is_sorting(keys@, 0, keys@.len() as int, r@),
        r@ == sorting(keys@),
{
    let list: Vec<usize> = sort_stretch(keys, 0, keys.len());
    proof {
        sorting_is_unique(keys@, 0, keys@.len() as int, list@, sorting(keys@));
    }
    list
}

/// A sorted list names no position twice.
pub proof fn sorting_is_injective(keys: Seq<SortKey>, lo: int, hi: int, list: Seq<usize>)
    requires
        is_sorting(keys, lo, hi, list),
    ensures
        forall|i: int, j: int|
            0 <= i < list.len() && 0 <= j < list.len() && i != j ==> #[trigger] list[i]
                != #[trigger] list[j],
{
}

/// There is one sorted list only.
pub proof fn sorting_is_unique(keys: Seq<SortKey>, lo: int, hi: int, a: Seq<usize>, b: Seq<usize>)
    requires
        is_sorting(keys, lo, hi, a),
        is_sorting(keys, lo, hi, b),
    ensures
        a == b,
{
    lemma_unique_prefix(keys, lo, hi, a, b, a.len() as int);
    assert(a =~= b);
}

proof fn lemma_unique_prefix(
    keys: Seq<SortKey>,
    lo: int,
    hi: int,
    a: Seq<usize>,
    b: Seq<usize>,
    n: int,
)
    requires
        is_sorting(keys, lo, hi, a),
        is_sorting(keys, lo, hi, b),
        0 <= n <= a.len(),
    ensures
        forall|i: int| 0 <= i < n ==> a[i] == b[i],
    decreases n,
{
    if n > 0 {
        lemma_unique_prefix(keys, lo, hi, a, b, n - 1);
        let x = a[n - 1];
        let y = b[n - 1];
        if x != y {
            assert(b.contains(x));
            assert(a.contains(y));
            let p = choose|p: int| 0 <= p < b.len() && b[p] == x;
            let q = choose|q: int| 0 <= q < a.len() && a[q] == y;
            if p < n - 1 {
                assert(a[p] == b[p]);
            }
            if q < n - 1 {
                assert(a[q] == b[q]);
            }
            assert(comes_before(keys, b[n - 1] as int, b[p] as int));
            assert(comes_before(keys, a[n - 1] as int, a[q] as int));
        }
    }
}

/// How many entries at the front of a sorted list come before a position.
spec fn insert_place(keys: Seq<SortKey>, list: Seq<usize>, x: int, n: nat) -> nat
    decreases n,
{
    if n == 0 || comes_before(keys, list[n - 1] as int, x) {
        n
    } else {
        insert_place(keys, list, x, (n - 1) as nat)
    }
}

proof fn lemma_insert_place(keys: Seq<SortKey>, list: Seq<usize>, x: int, n: nat)
    requires
        n <= list.len(),
    ensures
        insert_place(keys, list, x, n) <= n,
        insert_place(keys, list, x, n) > 0 ==> comes_before(
            keys,
            list[insert_place(keys, list, x, n) - 1] as int,
            x,
        ),
        forall|i: int|
            insert_place(keys, list, x, n) <= i < n ==> !comes_before(
                keys,
                #[trigger] list[i] as int,
                x,
            ),
    decreases n,
{
    if n > 0 && !comes_before(keys, list[n - 1] as int, x) {
        lemma_insert_place(keys, list, x, (n - 1) as nat);
    }
}

proof fn lemma_sorted_below(keys: Seq<SortKey>, n: nat) -> (list: Seq<usize>)
    requires
        n <= keys.len(),
        n <= usize::MAX,
    ensures
        is_sorting(keys, 0, n as int, list),
    decreases n,
{
    if n == 0 {
        Seq::empty()
    } else {
        let front = lemma_sorted_below(keys, (n - 1) as nat);
        let x = n - 1;
        let p = insert_place(keys, front, x, front.len()) as int;
        lemma_insert_place(keys, front, x, front.len());
        let list = front.take(p).push(x as usize) + front.skip(p);
        assert forall|i: int| 0 <= i < list.len() implies #[trigger] list[i] == (if i < p {
            front[i]
        } else if i == p {
            x as usize
        } else {
            front[i - 1]
        }) by {}
        assert forall|i: int, j: int| 0 <= i < j < list.len() implies comes_before(
            keys,
            #[trigger] list[i] as int,
            #[trigger] list[j] as int,
        ) by {
            if j == p {
                if i < p - 1 {
                    assert(comes_before(keys, front[i] as int, front[p - 1] as int));
                }
            } else if i == p {
                assert(!comes_before(keys, front[j - 1] as int, x));
            } else if i < p && j > p {
                assert(comes_before(keys, front[i] as int, front[j - 1] as int));
            } else if i < p {
                assert(comes_before(keys, front[i] as int, front[j] as int));
            } else {
                assert(comes_before(keys, front[i - 1] as int, front[j - 1] as int));
            }
        }
        assert forall|y: usize| 0 <= y < n implies #[trigger] list.contains(y) by {
            if y == x {
                assert(list[p] == y);
            } else {
                assert(front.contains(y));
                let k = choose|k: int| 0 <= k < front.len() && front[k] == y;
                if k < p {
                    assert(list[k] == y);
                } else {
                    assert(list[k + 1] == y);
                }
            }
        }
        list
    }
}

/// Keys that can be numbered can be sorted.
pub proof fn sorting_exists(keys: Seq<SortKey>)
    requires
        keys.len() <= usize::MAX,
    ensures
        is_sorting(keys, 0, keys.len() as int, sorting(keys)),
{
    let list = lemma_sorted_below(keys, keys.len());
    assert(is_sorting(keys, 0, keys.len() as int, list));
}

} // verus!
