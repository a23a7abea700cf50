//! What the caches of several workers were asked for, counted.
use vstd::prelude::*;
use crate::arith::{bounded, bounded_sum, greater, max_usize};
use crate::index_map::KeyMap;
use crate::side_cache::TerminalSideCacheKey;
use crate::sorting::{sorted_positions, sorting, SortKey};
use crate::tree::Player;

verus! {

/// How many boards are named.
pub const TOP_BOARDS: usize = 8;

/// How many keys workers have, each worker's once and all together once, how many of them several workers
/// have and how often too many, how many workers have one key at most, and the boards with the most keys.
#[derive(Clone, Debug)]
pub struct SideKeyStatistics {
    pub workers: usize,
    pub worker_local_keys: usize,
    pub unique_keys: usize,
    pub cross_worker_keys: usize,
    pub cross_worker_extra_touches: usize,
    pub max_workers_for_key: usize,
    pub top_boards: Vec<(usize, usize)>,
}

/// Items in the order in which they first occur, each once.
pub open spec fn distinct<K>(items: Seq<K>) -> Seq<K>
    decreases items.len(),
{
    if items.len() == 0 {
        Seq::empty()
    } else {
        let front = distinct(items.drop_last());
        if items.drop_last().contains(items.last()) {
            front
        } else {
            front.push(items.last())
        }
    }
}

proof fn lemma_distinct<K>(items: Seq<K>)
    ensures
        forall|item: K| distinct(items).contains(item) <==> #[trigger] items.contains(item),
        distinct(items).len() <= items.len(),
    decreases items.len(),
{
    if items.len() > 0 {
        let short = items.drop_last();
        lemma_distinct(short);
        let front = distinct(short);
        let last = items.last();
        assert(items =~= short.push(last));
        assert forall|item: K| distinct(items).contains(item) <==> #[trigger] items.contains(item) by {
            if items.contains(item) {
                let i = choose|i: int| 0 <= i < items.len() && items[i] == item;
                if i < short.len() {
                    assert(short[i] == item);
                    assert(short.contains(item));
                    let j = choose|j: int| 0 <= j < front.len() && front[j] == item;
                    assert(distinct(items)[j] == item);
                } else if short.contains(last) {
                    assert(front.contains(last));
                } else {
                    assert(distinct(items)[front.len() as int] == item);
                }
            }
            if distinct(items).contains(item) {
                let j = choose|j: int| 0 <= j < distinct(items).len() && distinct(items)[j] == item;
                if j < front.len() {
                    assert(front[j] == item);
                    assert(front.contains(item));
                    assert(short.contains(item));
                    let i = choose|i: int| 0 <= i < short.len() && short[i] == item;
                    assert(items[i] == item);
                } else {
                    assert(items[items.len() - 1] == item);
                }
            }
        }
    }
}

/// The keys of each worker.
pub open spec fn key_lists(lists: Seq<Vec<TerminalSideCacheKey>>) -> Seq<Seq<TerminalSideCacheKey>> {
    lists.map(|w: int, list: Vec<TerminalSideCacheKey>| list@)
}

/// The keys of the first `n` workers, one worker after another.
pub open spec fn joined<K>(lists: Seq<Seq<K>>, n: nat) -> Seq<K>
    decreases n,
{
    if n == 0 {
        Seq::empty()
    } else {
        joined(lists, (n - 1) as nat) + lists[n - 1]
    }
}

/// How many of the first `n` workers have a key.
pub open spec fn touches<K>(lists: Seq<Seq<K>>, key: K, n: nat) -> nat
    decreases n,
{
    if n == 0 {
        0
    } else {
        touches(lists, key, (n - 1) as nat) + if lists[n - 1].contains(key) {
            1nat
        } else {
            0
        }
    }
}

proof fn lemma_touches<K>(lists: Seq<Seq<K>>, key: K, n: nat)
    requires
        n <= lists.len(),
    ensures
        touches(lists, key, n) <= n,
        touches(lists, key, n) > 0 <==> joined(lists, n).contains(key),
    decreases n,
{
    if n > 0 {
        lemma_touches(lists, key, (n - 1) as nat);
        lemma_contains_sum(joined(lists, (n - 1) as nat), lists[n - 1], key);
    }
}

proof fn lemma_contains_sum<K>(a: Seq<K>, b: Seq<K>, item: K)
    ensures
        (a + b).contains(item) <==> a.contains(item) || b.contains(item),
{
    if a.contains(item) {
        let i = choose|i: int| 0 <= i < a.len() && a[i] == item;
        assert((a + b)[i] == item);
    }
    if b.contains(item) {
        let i = choose|i: int| 0 <= i < b.len() && b[i] == item;
        assert((a + b)[a.len() + i] == item);
    }
    if (a + b).contains(item) {
        let i = choose|i: int| 0 <= i < (a + b).len() && (a + b)[i] == item;
        if i < a.len() {
            assert(a[i] == item);
        } else {
            assert(b[i - a.len()] == item);
        }
    }
}

/// How many keys the first `n` workers have, each worker's once.
pub open spec fn local_keys<K>(lists: Seq<Seq<K>>, n: nat) -> nat
    decreases n,
{
    if n == 0 {
        0
    } else {
        local_keys(lists, (n - 1) as nat) + distinct(lists[n - 1]).len()
    }
}

/// How many of the first `n` keys several workers have.
pub open spec fn shared_keys<K>(lists: Seq<Seq<K>>, keys: Seq<K>, n: nat) -> nat
    decreases n,
{
    if n == 0 {
        0
    } else {
        shared_keys(lists, keys, (n - 1) as nat) + if touches(lists, keys[n - 1], lists.len()) > 1 {
            1nat
        } else {
            0
        }
    }
}

/// How many workers have one of the first `n` keys besides a first.
pub open spec fn extra_touches<K>(lists: Seq<Seq<K>>, keys: Seq<K>, n: nat) -> nat
    decreases n,
{
    if n == 0 {
        0
    } else {
        let count = touches(lists, keys[n - 1], lists.len());
        extra_touches(lists, keys, (n - 1) as nat) + if count > 1 {
            (count - 1) as nat
        } else {
            0
        }
    }
}

/// How many workers have one of the first `n` keys at most.
pub open spec fn most_touches<K>(lists: Seq<Seq<K>>, keys: Seq<K>, n: nat) -> nat
    decreases n,
{
    if n == 0 {
        0
    } else {
        greater(
            most_touches(lists, keys, (n - 1) as nat) as int,
            touches(lists, keys[n - 1], lists.len()) as int,
        ) as nat
    }
}

/// The boards of keys.
pub open spec fn boards_of(keys: Seq<TerminalSideCacheKey>) -> Seq<usize> {
    keys.map(|i: int, key: TerminalSideCacheKey| key.cache_index)
}

/// How often an item occurs.
pub open spec fn occurrences<K>(items: Seq<K>, item: K) -> nat
    decreases items.len(),
{
    if items.len() == 0 {
        0
    } else {
        occurrences(items.drop_last(), item) + if items.last() == item {
            1nat
        } else {
            0
        }
    }
}

proof fn lemma_occurrences<K>(items: Seq<K>, item: K)
    ensures
        occurrences(items, item) <= items.len(),
        !items.contains(item) ==> occurrences(items, item) == 0,
    decreases items.len(),
{
    if items.len() > 0 {
        let short = items.drop_last();
        lemma_occurrences(short, item);
        if short.contains(item) {
            let i = choose|i: int| 0 <= i < short.len() && short[i] == item;
            assert(items[i] == item);
        }
        if items.last() == item {
            assert(items[items.len() - 1] == item);
        }
    }
}

/// By what boards are ordered: the most keys first, and of as many the first board.
pub open spec fn board_order(boards: Seq<usize>, all: Seq<usize>) -> Seq<SortKey> {
    boards.map(
        |i: int, board: usize|
            SortKey {
                first: (u64::MAX - occurrences(all, board)) as u64,
                second: board as u64,
                third: 0,
                fourth: 0,
            },
    )
}

/// The boards with the most keys, with how many.
pub open spec fn top_boards(all: Seq<usize>) -> Seq<(usize, usize)> {
    let boards = distinct(all);
    let order = sorting(board_order(boards, all));
    Seq::new(
        if boards.len() < TOP_BOARDS {
            boards.len()
        } else {
            TOP_BOARDS as nat
        },
        |i: int|
            (boards[order[i] as int], occurrences(all, boards[order[i] as int]) as usize),
    )
}

/// Places of keys in a list.
struct KeyPlaces {
    boards: KeyMap<usize>,
    oop: Vec<KeyMap<usize>>,
    ip: Vec<KeyMap<usize>>,
}

impl KeyPlaces {
    spec fn map_of(self, key: TerminalSideCacheKey, b: int) -> Map<u64, usize> {
        match key.side {
            Player::Oop => self.oop@[b]@,
            Player::Ip => self.ip@[b]@,
        }
    }

    spec fn place(self, key: TerminalSideCacheKey) -> Option<usize> {
        let board = key.cache_index as u64;
        if self.boards@.contains_key(board) {
            let list = self.map_of(key, self.boards@[board] as int);
            if list.contains_key(key.reach_hash) {
                Some(list[key.reach_hash])
            } else {
                None
            }
        } else {
            None
        }
    }

    spec fn wf(self) -> bool {
        &&& self.oop@.len() == self.ip@.len()
        &&& forall|board: u64| #[trigger]
            self.boards@.contains_key(board) ==> self.boards@[board] < self.oop@.len()
        &&& forall|a: u64, b: u64|
            #![trigger self.boards@.contains_key(a), self.boards@.contains_key(b)]
            self.boards@.contains_key(a) && self.boards@.contains_key(b) && a != b ==> self.boards@[a]
                != self.boards@[b]
    }

    fn new() -> (r: Self)
        ensures
            r.wf(),
            forall|key: TerminalSideCacheKey| #[trigger] r.place(key) is None,
    {
        KeyPlaces { boards: KeyMap::new(), oop: Vec::new(), ip: Vec::new() }
    }

    fn get(&self, key: &TerminalSideCacheKey) -> (r: Option<usize>)
        requires
            self.wf(),
        ensures
            r == self.place(*key),
    {
        match self.boards.get(key.cache_index as u64) {
            Some(board) => {
                let place: usize = *board;
                let found: Option<&usize> = match key.side {
                    Player::Oop => self.oop[place].get(key.reach_hash),
                    Player::Ip => self.ip[place].get(key.reach_hash),
                };
                match found {
                    Some(value) => Some(*value),
                    None => None,
                }
            },
            None => None,
        }
    }

    fn insert(&mut self, key: &TerminalSideCacheKey, value: usize)
        requires
            old(self).wf(),
        ensures
            final(self).wf(),
            forall|other: TerminalSideCacheKey| #[trigger]
                final(self).place(other) == (if other == *key {
                    Some(value)
                } else {
                    old(self).place(other)
                }),
    {
        let board: u64 = key.cache_index as u64;
        let ghost before = *self;
        let found: Option<usize> = match self.boards.get(board) {
            Some(place) => Some(*place),
            None => None,
        };
        let place: usize = match found {
            Some(place) => place,
            None => {
                let place: usize = self.oop.len();
                self.oop.push(KeyMap::new());
                self.ip.push(KeyMap::new());
                self.boards.insert(board, place);
                place
            },
        };
        let ghost grown = *self;
        proof {
            assert(grown.wf());
            assert forall|other: TerminalSideCacheKey| #[trigger]
                grown.place(other) == before.place(other) by {
                let at = other.cache_index as u64;
                if before.boards@.contains_key(at) {
                    let b = before.boards@[at] as int;
                    assert(grown.boards@.contains_key(at));
                    assert(grown.oop@[b] == before.oop@[b]);
                    assert(grown.ip@[b] == before.ip@[b]);
                }
            }
        }
        match key.side {
            Player::Oop => self.oop[place].insert(key.reach_hash, value),
            Player::Ip => self.ip[place].insert(key.reach_hash, value),
        }
        proof {
            assert forall|other: TerminalSideCacheKey| #[trigger]
                self.place(other) == (if other == *key {
                    Some(value)
                } else {
                    before.place(other)
                }) by {
                let at = other.cache_index as u64;
                assert(grown.place(other) == before.place(other));
                if grown.boards@.contains_key(at) && at != board {
                    assert(grown.boards@[at] != grown.boards@[board]);
                }
            }
        }
    }
}

/// The keys of several workers, each once, with how many workers have it, and how many keys the workers
/// have.
fn tally(lists: &Vec<Vec<TerminalSideCacheKey>>) -> (r: (Vec<TerminalSideCacheKey>, Vec<usize>, usize))
    ensures
        r.0@ == distinct(joined(key_lists(lists@), lists@.len())),
        r.1@.len() == r.0@.len(),
        forall|i: int|
            0 <= i < r.0@.len() ==> #[trigger] r.1@[i] == touches(
                key_lists(lists@),
                r.0@[i],
                lists@.len(),
            ),
        r.2 == bounded(local_keys(key_lists(lists@), lists@.len()) as int),
{
    let ghost all = key_lists(lists@);
    let mut keys: Vec<TerminalSideCacheKey> = Vec::new();
    let mut counts: Vec<usize> = Vec::new();
    let mut lasts: Vec<usize> = Vec::new();
    let mut places: KeyPlaces = KeyPlaces::new();
    let mut local: usize = 0;
    for w in 0..lists.len()
        invariant
            all == key_lists(lists@),
            keys@ == distinct(joined(all, w as nat)),
            counts@.len() == keys@.len(),
            lasts@.len() == keys@.len(),
            places.wf(),
            are_places(places, keys@),
            forall|i: int|
                0 <= i < keys@.len() ==> #[trigger] counts@[i] == touches(all, keys@[i], w as nat),
            forall|i: int| 0 <= i < lasts@.len() ==> #[trigger] lasts@[i] < w,
            local == bounded(local_keys(all, w as nat) as int),
    {
        let list: &Vec<TerminalSideCacheKey> = &lists[w];
        let ghost front = joined(all, w as nat);
        proof {
            assert(all[w as int] == list@);
            assert(front + list@.take(0) =~= front);
        }
        for k in 0..list.len()
            invariant
                w < lists@.len(),
                w < usize::MAX,
                all == key_lists(lists@),
                all[w as int] == list@,
                front == joined(all, w as nat),
                keys@ == distinct(front + list@.take(k as int)),
                counts@.len() == keys@.len(),
                lasts@.len() == keys@.len(),
                places.wf(),
                are_places(places, keys@),
                forall|i: int|
                    0 <= i < keys@.len() ==> #[trigger] counts@[i] == touches(all, keys@[i], w as nat)
                        + (if list@.take(k as int).contains(keys@[i]) {
                        1int
                    } else {
                        0
                    }),
                forall|i: int|
                    0 <= i < lasts@.len() ==> #[trigger] lasts@[i] <= w && (lasts@[i] == w
                        <==> list@.take(k as int).contains(keys@[i])),
                local == bounded(
                    (local_keys(all, w as nat) + distinct(list@.take(k as int)).len()) as int,
                ),
        {
            let key: TerminalSideCacheKey = list[k];
            let ghost part = list@.take(k as int);
            let ghost next = list@.take(k + 1);
            proof {
                assert(next =~= part.push(key));
                assert(next.drop_last() =~= part);
                assert((front + next).drop_last() =~= front + part);
                lemma_distinct(front + part);
                lemma_contains_sum(front, part, key);
                assert forall|i: int| 0 <= i < keys@.len() implies (#[trigger] next.contains(keys@[i])
                    <==> part.contains(keys@[i]) || keys@[i] == key) by {
                    lemma_contains_sum(part, seq![key], keys@[i]);
                    assert(part + seq![key] =~= next);
                    assert(seq![key].contains(keys@[i]) <==> keys@[i] == key) by {
                        assert(seq![key][0] == key);
                    }
                }
                assert(next.contains(key)) by {
                    assert(next[k as int] == key);
                }
                lemma_touches(all, key, w as nat);
            }
            match places.get(&key) {
                Some(place) => {
                    proof {
                        assert(keys@[place as int] == key);
                        assert(keys@.contains(key));
                        assert(next.contains(keys@[place as int]));
                    }
                    if lasts[place] != w {
                        local = bounded_sum(local, 1);
                        proof {
                            assert(lasts@[place as int] != w);
                            assert(!part.contains(keys@[place as int]));
                            assert(counts@[place as int] == touches(all, key, w as nat));
                        }
                        let count: usize = counts[place] + 1;
                        counts.set(place, count);
                        lasts.set(place, w);
                        proof {
                            assert forall|i: int| 0 <= i < keys@.len() && i != place implies keys@[i]
                                != key by {
                                assert(places.place(keys@[i]) == Some(i as usize));
                            }
                        }
                    }
                },
                None => {
                    proof {
                        assert(!keys@.contains(key)) by {
                            if keys@.contains(key) {
                                let i = choose|i: int| 0 <= i < keys@.len() && keys@[i] == key;
                                assert(places.place(keys@[i]) == Some(i as usize));
                            }
                        }
                    }
                    let ghost was = keys@;
                    local = bounded_sum(local, 1);
                    places.insert(&key, keys.len());
                    keys.push(key);
                    counts.push(1);
                    lasts.push(w);
                    proof {
                        assert forall|i: int| 0 <= i < was.len() implies keys@[i] == was[i] && keys@[i]
                            != key by {
                            assert(was.contains(was[i]));
                        }
                    }
                },
            }
            proof {
                assert forall|i: int| 0 <= i < keys@.len() implies (#[trigger] next.contains(keys@[i])
                    <==> part.contains(keys@[i]) || keys@[i] == key) by {
                    lemma_contains_sum(part, seq![key], keys@[i]);
                    assert(part + seq![key] =~= next);
                    assert(seq![key].contains(keys@[i]) <==> keys@[i] == key) by {
                        assert(seq![key][0] == key);
                    }
                }
            }
        }
        proof {
            assert(list@.take(list@.len() as int) =~= list@);
        }
    }
    (keys, counts, local)
}

spec fn are_places(places: KeyPlaces, keys: Seq<TerminalSideCacheKey>) -> bool {
    &&& forall|i: int|
        0 <= i < keys.len() ==> places.place(#[trigger] keys[i]) == Some(i as usize) && i <= usize::MAX
    &&& forall|key: TerminalSideCacheKey|
        (#[trigger] places.place(key) matches Some(place) ==> place < keys.len() && keys[place as int]
            == key)
}

/// Counts what the caches of several workers were asked for.
pub fn side_key_statistics(lists: &Vec<Vec<TerminalSideCacheKey>>) -> (r: SideKeyStatistics)
    ensures
        ({
            let all = key_lists(lists@);
            let keys = distinct(joined(all, all.len()));
            &&& r.workers == all.len()
            &&& r.worker_local_keys == bounded(local_keys(all, all.len()) as int)
            &&& r.unique_keys == keys.len()
            &&& r.cross_worker_keys == shared_keys(all, keys, keys.len())
            &&& r.cross_worker_extra_touches == bounded(
                extra_touches(all, keys, keys.len()) as int,
            )
            &&& r.max_workers_for_key == most_touches(all, keys, keys.len())
            &&& r.top_boards@ == top_boards(boards_of(keys))
        }),
{
    let ghost all = key_lists(lists@);
    let (keys, counts, worker_local_keys) = tally(lists);
    let mut cross_worker_keys: usize = 0;
    let mut cross_worker_extra_touches: usize = 0;
    let mut max_workers_for_key: usize = 0;
    for i in 0..keys.len()
        invariant
            all.len() == lists@.len(),
            counts@.len() == keys@.len(),
            forall|k: int|
                0 <= k < keys@.len() ==> #[trigger] counts@[k] == touches(all, keys@[k], all.len()),
            cross_worker_keys == shared_keys(all, keys@, i as nat),
            cross_worker_keys <= i,
            cross_worker_extra_touches == bounded(extra_touches(all, keys@, i as nat) as int),
            max_workers_for_key == most_touches(all, keys@, i as nat),
    {
        let count: usize = counts[i];
        if count > 1 {
            cross_worker_keys = cross_worker_keys + 1;
            cross_worker_extra_touches = bounded_sum(cross_worker_extra_touches, count - 1);
        }
        max_workers_for_key = max_usize(max_workers_for_key, count);
    }
    let top_boards: Vec<(usize, usize)> = boards_with_most(&keys);
    SideKeyStatistics {
        workers: lists.len(),
        worker_local_keys,
        unique_keys: keys.len(),
        cross_worker_keys,
        cross_worker_extra_touches,
        max_workers_for_key,
        top_boards,
    }
}

fn boards_with_most(keys: &Vec<TerminalSideCacheKey>) -> (r: Vec<(usize, usize)>)
    ensures
        r@ == top_boards(boards_of(keys@)),
{
    let ghost all = boards_of(keys@);
    let mut places: KeyMap<usize> = KeyMap::new();
    let mut boards: Vec<usize> = Vec::new();
    let mut counts: Vec<usize> = Vec::new();
    proof {
        assert(all.take(0) =~= Seq::empty());
    }
    for i in 0..keys.len()
        invariant
            all == boards_of(keys@),
            boards@ == distinct(all.take(i as int)),
            counts@.len() == boards@.len(),
            forall|b: int|
                0 <= b < boards@.len() ==> {
                    let board = #[trigger] boards@[b];
                    &&& places@.contains_key(board as u64)
                    &&& places@[board as u64] == b
                    &&& counts@[b] == occurrences(all.take(i as int), board)
                },
            forall|board: u64| #[trigger]
                places@.contains_key(board) ==> places@[board] < boards@.len()
                    && boards@[places@[board] as int] == board,
    {
        let board: usize = keys[i].cache_index;
        let ghost part = all.take(i as int);
        let ghost next = all.take(i + 1);
        let ghost was = boards@;
        proof {
            assert(next.drop_last() =~= part);
            assert(next.last() == board);
            lemma_distinct(part);
            lemma_occurrences(part, board);
            assert forall|b: int| 0 <= b < was.len() implies occurrences(next, #[trigger] was[b])
                == occurrences(part, was[b]) + (if was[b] == board {
                1int
            } else {
                0
            }) by {}
        }
        let found: Option<usize> = match places.get(board as u64) {
            Some(place) => Some(*place),
            None => None,
        };
        match found {
            Some(place) => {
                proof {
                    assert(was[place as int] == board);
                    assert(was.contains(board));
                    assert(counts@[place as int] == occurrences(part, board));
                }
                let count: usize = counts[place] + 1;
                counts.set(place, count);
                proof {
                    assert forall|b: int| 0 <= b < was.len() && b != place implies #[trigger] was[b]
                        != board by {
                        assert(places@[was[b] as u64] == b);
                    }
                }
            },
            None => {
                proof {
                    assert(!was.contains(board)) by {
                        if was.contains(board) {
                            let b = choose|b: int| 0 <= b < was.len() && was[b] == board;
                            assert(places@.contains_key(was[b] as u64));
                        }
                    }
                    assert forall|b: int| 0 <= b < was.len() implies #[trigger] was[b] != board by {
                        assert(was.contains(was[b]));
                    }
                }
                places.insert(board as u64, boards.len());
                boards.push(board);
                counts.push(1);
                proof {
                    assert(boards@ =~= distinct(next));
                }
            },
        }
    }
    proof {
        assert(all.take(all.len() as int) =~= all);
    }
    let mut order: Vec<SortKey> = Vec::new();
    for b in 0..boards.len()
        invariant
            boards@ == distinct(all),
            counts@.len() == boards@.len(),
            forall|k: int|
                0 <= k < boards@.len() ==> #[trigger] counts@[k] == occurrences(all, boards@[k]),
            order@.len() == b,
            forall|k: int| 0 <= k < b ==> #[trigger] order@[k] == board_order(boards@, all)[k],
    {
        order.push(
            SortKey {
                first: u64::MAX - counts[b] as u64,
                second: boards[b] as u64,
                third: 0,
                fourth: 0,
            },
        );
    }
    proof {
        assert(order@ =~= board_order(boards@, all));
    }
    let sorted: Vec<usize> = sorted_positions(&order);
    let mut list: Vec<(usize, usize)> = Vec::new();
    let top: usize = if boards.len() < TOP_BOARDS {
        boards.len()
    } else {
        TOP_BOARDS
    };
    for i in 0..top
        invariant
            boards@ == distinct(all),
            counts@.len() == boards@.len(),
            forall|k: int|
                0 <= k < boards@.len() ==> #[trigger] counts@[k] == occurrences(all, boards@[k]),
            sorted@ == sorting(board_order(boards@, all)),
            sorted@.len() == boards@.len(),
            forall|k: int| 0 <= k < sorted@.len() ==> 0 <= #[trigger] sorted@[k] < boards@.len(),
            top <= boards@.len(),
            top == top_boards(all).len(),
            list@.len() == i,
            forall|k: int| 0 <= k < i ==> #[trigger] list@[k] == top_boards(all)[k],
    {
        let place: usize = sorted[i];
        list.push((boards[place], counts[place]));
    }
    proof {
        assert(list@ =~= top_boards(all));
    }
    list
}

} // verus!
