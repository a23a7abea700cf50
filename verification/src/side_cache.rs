//! A cache of the values of finished boards, found by hash, that counts what it was asked for.
use vstd::prelude::*;
use crate::arith::{bounded, bounded_sum};
use crate::cfr_math::copy_of;
use crate::index_map::KeyMap;
use crate::scalar::Scalar;
use crate::terminal_cache::{
    compact_values, hash_sparse_reach, lemma_signatures_differ, mix_hash, mixed, reach_hash,
    reach_signature, signature_below, terminal_side_values, LiveReach, TerminalEvalCache,
};
use crate::tree::Player;

verus! {

/// What values were asked for: of a prepared board, to a player, against the numbers at listed places.
pub ghost struct SideKey {
    pub cache_index: int,
    pub side: Player,
    pub listed: Seq<(u16, u64)>,
}

/// The bits of the numbers at listed places, with the places.
pub open spec fn listed_reach<S: Scalar>(reach: Seq<S>, places: Seq<u16>) -> Seq<(u16, u64)> {
    Seq::new(places.len(), |k: int| (places[k], reach[places[k] as int].bits_spec()))
}

/// The places of a list.
pub open spec fn places_of(listed: Seq<(u16, u64)>) -> Seq<u16> {
    Seq::new(listed.len(), |k: int| listed[k].0)
}

/// What is asked for with a reach.
pub open spec fn side_key<S: Scalar>(
    cache_index: int,
    side: Player,
    reach: Seq<S>,
    places: Seq<u16>,
) -> SideKey {
    SideKey { cache_index, side, listed: listed_reach(reach, places) }
}

/// The hash of the first `n` places of a list.
pub open spec fn listed_hash(listed: Seq<(u16, u64)>, n: nat) -> u64
    decreases n,
{
    if n == 0 {
        0xcbf29ce484222325
    } else {
        mixed(
            mixed(listed_hash(listed, (n - 1) as nat), listed[n - 1].0 as u64),
            listed[n - 1].1,
        )
    }
}

/// The hash of what is asked for.
pub open spec fn side_hash(key: SideKey) -> u64 {
    mixed(
        mixed(listed_hash(key.listed, key.listed.len()), key.cache_index as u64),
        match key.side {
            Player::Oop => 0,
            Player::Ip => 1,
        },
    )
}

/// The hash of a list is that of the numbers at its places.
pub proof fn listed_hash_is_reach_hash<S: Scalar>(reach: Seq<S>, places: Seq<u16>, n: nat)
    requires
        n <= places.len(),
    ensures
        listed_hash(listed_reach(reach, places), n) == reach_hash(reach, places, n),
    decreases n,
{
    if n > 0 {
        listed_hash_is_reach_hash(reach, places, (n - 1) as nat);
    }
}

/// What was asked for, each once, and how often for something new or known.
pub ghost struct SideAsked {
    pub keys: Seq<SideKey>,
    pub hits: int,
    pub misses: int,
}

impl SideAsked {
    /// Nothing was asked for.
    pub open spec fn none() -> Self {
        SideAsked { keys: Seq::empty(), hits: 0, misses: 0 }
    }

    /// One thing more was asked for.
    pub open spec fn with(self, key: SideKey) -> Self {
        if self.keys.contains(key) {
            SideAsked { hits: bounded(self.hits + 1), ..self }
        } else {
            SideAsked {
                keys: self.keys.push(key),
                misses: bounded(self.misses + 1),
                ..self
            }
        }
    }
}

/// What values were asked for, with the hash of a reach in its place.
#[derive(Clone, Copy, Debug, PartialEq, Eq, Structural)]
pub struct TerminalSideCacheKey {
    pub cache_index: usize,
    pub side: Player,
    pub reach_hash: u64,
}

/// Values that were worked out before, with what they were worked out for.
#[derive(Clone, Debug)]
pub struct TerminalSideCacheEntry<S> {
    pub cache_index: usize,
    pub side: Player,
    pub listed: Vec<(u16, u64)>,
    pub reach_hash: u64,
    pub hash: u64,
    pub sparse: bool,
    pub signature: Vec<(u16, S)>,
    pub values: Vec<S>,
    pub previous: Option<usize>,
}

impl<S> TerminalSideCacheEntry<S> {
    /// What the values are of.
    pub open spec fn key(self) -> SideKey {
        SideKey { cache_index: self.cache_index as int, side: self.side, listed: self.listed@ }
    }

    /// Whether the hashes are those of what the values are of.
    pub open spec fn is_hashed(self) -> bool {
        &&& self.reach_hash == listed_hash(self.listed@, self.listed@.len())
        &&& self.hash == side_hash(self.key())
    }
}

/// A cache of values, found by hash.
#[derive(Clone, Debug)]
pub struct TerminalSideValueCache<S> {
    pub entries: Vec<TerminalSideCacheEntry<S>>,
    pub last_by_hash: KeyMap<usize>,
    pub hits: usize,
    pub misses: usize,
}

/// Whether an entry holds the values of every reach that it fits.
pub open spec fn entry_holds<S: Scalar>(
    caches: Seq<TerminalEvalCache>,
    entry: TerminalSideCacheEntry<S>,
) -> bool {
    &&& entry.cache_index < caches.len()
    &&& forall|reach: Seq<S>|
        reach.len() == caches[entry.cache_index as int].prepared.count() && #[trigger] signature_below(
            reach,
            reach.len(),
        ) == entry.signature@ ==> entry.values@ == compact_values(
            caches[entry.cache_index as int].prepared,
            caches[entry.cache_index as int].indices(entry.side),
            reach,
            places_of(entry.listed@),
            entry.sparse,
        )
}

/// What the entries of a cache are of.
pub open spec fn keys_of<S>(entries: Seq<TerminalSideCacheEntry<S>>) -> Seq<SideKey> {
    entries.map(|e: int, entry: TerminalSideCacheEntry<S>| entry.key())
}

/// What the entries of a cache are of, with hashes.
pub open spec fn hashed_keys(keys: Seq<SideKey>) -> Seq<TerminalSideCacheKey> {
    keys.map(
        |e: int, key: SideKey|
            TerminalSideCacheKey {
                cache_index: key.cache_index as usize,
                side: key.side,
                reach_hash: listed_hash(key.listed, key.listed.len()),
            },
    )
}

impl<S: Scalar> TerminalSideValueCache<S> {
    /// Whether every entry holds the values of what it stands for and is found.
    pub open spec fn holds(self, caches: Seq<TerminalEvalCache>) -> bool {
        &&& forall|e: int|
            0 <= e < self.entries@.len() ==> entry_holds(caches, #[trigger] self.entries@[e])
        &&& self.is_indexed()
    }

    /// Whether all entries of a hash are found from the last, each from the one behind it.
    pub open spec fn is_indexed(self) -> bool {
        &&& forall|e: int| 0 <= e < self.entries@.len() ==> #[trigger] self.is_chained(e)
        &&& forall|hash: u64| #[trigger]
            self.last_by_hash@.contains_key(hash) ==> self.last_by_hash@[hash] < self.entries@.len()
                && self.entries@[self.last_by_hash@[hash] as int].hash == hash
    }

    /// Whether an entry is not behind the last of its hash and leads to the one before it of that hash.
    pub open spec fn is_chained(self, e: int) -> bool {
        let entry = self.entries@[e];
        &&& entry.is_hashed()
        &&& self.last_by_hash@.contains_key(entry.hash)
        &&& e <= self.last_by_hash@[entry.hash]
        &&& entry.previous matches Some(p) ==> p < e && self.entries@[p as int].hash == entry.hash
        &&& forall|d: int|
            0 <= d < e && (#[trigger] self.entries@[d]).hash == entry.hash ==> (
            entry.previous matches Some(p) && d <= p)
    }

    /// What the cache was asked for.
    pub open spec fn asked(self) -> SideAsked {
        SideAsked {
            keys: keys_of(self.entries@),
            hits: self.hits as int,
            misses: self.misses as int,
        }
    }

    /// A cache without entries.
    pub fn new() -> (r: Self)
        ensures
            forall|caches: Seq<TerminalEvalCache>| r.holds(caches),
            r.asked() == SideAsked::none(),
    {
        let cache = TerminalSideValueCache {
            entries: Vec::new(),
            last_by_hash: KeyMap::new(),
            hits: 0,
            misses: 0,
        };
        proof {
            assert(keys_of(cache.entries@) =~= Seq::empty());
        }
        cache
    }

    /// What the cache was asked for, each once, with hashes.
    pub fn keys(&self) -> (r: Vec<TerminalSideCacheKey>)
        requires
            self.is_indexed(),
        ensures
            r@ == hashed_keys(self.asked().keys),
    {
        let mut list: Vec<TerminalSideCacheKey> = Vec::new();
        for e in 0..self.entries.len()
            invariant
                self.is_indexed(),
                list@.len() == e,
                forall|k: int|
                    0 <= k < e ==> #[trigger] list@[k] == hashed_keys(keys_of(self.entries@))[k],
        {
            let entry: &TerminalSideCacheEntry<S> = &self.entries[e];
            proof {
                assert(self.is_chained(e as int));
                assert(keys_of(self.entries@)[e as int] == self.entries@[e as int].key());
            }
            list.push(
                TerminalSideCacheKey {
                    cache_index: entry.cache_index,
                    side: entry.side,
                    reach_hash: entry.reach_hash,
                },
            );
        }
        proof {
            assert(list@ =~= hashed_keys(keys_of(self.entries@)));
        }
        list
    }

    /// The place of the values that are asked for.
    fn find(
        &self,
        hash: u64,
        cache_index: usize,
        side: Player,
        listed: &Vec<(u16, u64)>,
    ) -> (r: Option<usize>)
        requires
            self.is_indexed(),
            hash == side_hash(SideKey { cache_index: cache_index as int, side, listed: listed@ }),
        ensures
            match r {
                Some(index) => index < self.entries@.len() && self.entries@[index as int].key()
                    == (SideKey { cache_index: cache_index as int, side, listed: listed@ }),
                None => !keys_of(self.entries@).contains(
                    (SideKey { cache_index: cache_index as int, side, listed: listed@ }),
                ),
            },
    {
        let ghost key = SideKey { cache_index: cache_index as int, side, listed: listed@ };
        let mut next: Option<usize> = match self.last_by_hash.get(hash) {
            Some(index) => Some(*index),
            None => None,
        };
        proof {
            assert forall|e: int|
                0 <= e < self.entries@.len() && (#[trigger] self.entries@[e]).key() == key implies (
            next matches Some(index) && e <= index) by {
                assert(self.is_chained(e));
            }
        }
        while next.is_some()
            invariant
                self.is_indexed(),
                key == (SideKey { cache_index: cache_index as int, side, listed: listed@ }),
                hash == side_hash(key),
                next matches Some(index) ==> index < self.entries@.len()
                    && self.entries@[index as int].hash == hash,
                forall|e: int|
                    0 <= e < self.entries@.len() && (#[trigger] self.entries@[e]).key() == key
                        ==> (next matches Some(index) && e <= index),
            decreases
                (match next {
                    Some(index) => index + 1,
                    None => 0int,
                }),
        {
            if let Some(index) = next {
                let entry: &TerminalSideCacheEntry<S> = &self.entries[index];
                if entry.cache_index == cache_index && entry.side == side && same_listed(
                    &entry.listed,
                    listed,
                ) {
                    return Some(index);
                }
                next = entry.previous;
                proof {
                    assert(self.is_chained(index as int));
                    assert forall|e: int|
                        0 <= e < self.entries@.len() && (#[trigger] self.entries@[e]).key()
                            == key implies (next matches Some(index) && e <= index) by {
                        assert(self.is_chained(e));
                        assert(e != index);
                        assert(self.entries@[e].hash == self.entries@[index as int].hash);
                    }
                }
            }
        }
        proof {
            let keys = keys_of(self.entries@);
            assert forall|e: int| 0 <= e < keys.len() implies #[trigger] keys[e] != key by {
                assert(keys[e] == self.entries@[e].key());
            }
        }
        None
    }
}

fn same_listed(a: &Vec<(u16, u64)>, b: &Vec<(u16, u64)>) -> (r: bool)
    ensures
        r == (a@ == b@),
{
    if a.len() != b.len() {
        return false;
    }
    for i in 0..a.len()
        invariant
            a@.len() == b@.len(),
            forall|k: int| 0 <= k < i ==> #[trigger] a@[k] == b@[k],
    {
        if a[i].0 != b[i].0 || a[i].1 != b[i].1 {
            return false;
        }
    }
    proof {
        assert(a@ =~= b@);
    }
    true
}

fn same_signature<S: Scalar>(a: &Vec<(u16, S)>, b: &Vec<(u16, S)>) -> (r: bool)
    ensures
        r ==> a@ == b@,
{
    if a.len() != b.len() {
        return false;
    }
    for i in 0..a.len()
        invariant
            a@.len() == b@.len(),
            forall|k: int| 0 <= k < i ==> #[trigger] a@[k] == b@[k],
    {
        if a[i].0 != b[i].0 || a[i].1.bits() != b[i].1.bits() {
            return false;
        }
        proof {
            S::bits_tell_apart(a@[i as int].1, b@[i as int].1);
        }
    }
    proof {
        assert(a@ =~= b@);
    }
    true
}

fn listed<S: Scalar>(reach: &Vec<S>, places: &Vec<u16>) -> (r: Vec<(u16, u64)>)
    requires
        forall|k: int| 0 <= k < places@.len() ==> #[trigger] places@[k] < reach@.len(),
    ensures
        r@ == listed_reach(reach@, places@),
{
    let mut list: Vec<(u16, u64)> = Vec::new();
    for k in 0..places.len()
        invariant
            forall|j: int| 0 <= j < places@.len() ==> #[trigger] places@[j] < reach@.len(),
            list@ =~= listed_reach(reach@, places@).take(k as int),
    {
        list.push((places[k], reach[places[k] as usize].bits()));
    }
    proof {
        assert(list@ =~= listed_reach(reach@, places@));
    }
    list
}

/// The places of the numbers that are not zero.
pub fn places_apart_from_zero<S: Scalar>(values: &Vec<S>) -> (r: Vec<u16>)
    requires
        values@.len() <= 0xffff,
    ensures
        r@.len() == signature_below(values@, values@.len()).len(),
        forall|k: int|
            0 <= k < r@.len() ==> #[trigger] r@[k] == signature_below(values@, values@.len())[k].0,
        forall|k: int| 0 <= k < r@.len() ==> #[trigger] r@[k] < values@.len(),
{
    let zero: u64 = S::zero().bits();
    let mut list: Vec<u16> = Vec::new();
    for i in 0..values.len()
        invariant
            values@.len() <= 0xffff,
            zero == S::zero_spec().bits_spec(),
            list@.len() == signature_below(values@, i as nat).len(),
            forall|k: int|
                0 <= k < list@.len() ==> #[trigger] list@[k] == signature_below(values@, i as nat)[k].0,
            forall|k: int| 0 <= k < list@.len() ==> #[trigger] list@[k] < values@.len(),
    {
        if values[i].bits() != zero {
            list.push(i as u16);
        }
    }
    list
}

/// The values of a player's hands against an opponent's reach on a prepared board, from the cache if they
/// were worked out before. They are what working them out gives.
pub fn terminal_side_cached_values<S: Scalar>(
    cache: &mut TerminalSideValueCache<S>,
    caches: &Vec<TerminalEvalCache>,
    cache_index: usize,
    side: Player,
    opponent: &LiveReach<S>,
    sparse: bool,
) -> (r: Vec<S>)
    requires
        old(cache).holds(caches@),
        cache_index < caches@.len(),
        caches@[cache_index as int].prepared.wf(),
        opponent.values@.len() == caches@[cache_index as int].prepared.count(),
        forall|k: int|
            0 <= k < opponent.nonzero@.len() ==> #[trigger] opponent.nonzero@[k]
                < opponent.values@.len(),
        forall|i: int|
            0 <= i < caches@[cache_index as int].indices(side).len() ==> (
            #[trigger] caches@[cache_index as int].indices(side)[i] matches Some(b) ==> b
                < caches@[cache_index as int].prepared.count()),
    ensures
        final(cache).holds(caches@),
        final(cache).asked() == old(cache).asked().with(
            side_key(cache_index as int, side, opponent.values@, opponent.nonzero@),
        ),
        r@ == compact_values(
            caches@[cache_index as int].prepared,
            caches@[cache_index as int].indices(side),
            opponent.values@,
            opponent.nonzero@,
            sparse,
        ),
{
    proof {
        caches@[cache_index as int].prepared.wf_facts();
    }
    let ghost before = *cache;
    let ghost key = side_key(cache_index as int, side, opponent.values@, opponent.nonzero@);
    let terminal: &TerminalEvalCache = &caches[cache_index];
    let signature: Vec<(u16, S)> = reach_signature(&opponent.values);
    let places: Vec<(u16, u64)> = listed(&opponent.values, &opponent.nonzero);
    let reach_hash: u64 = hash_sparse_reach(&opponent.values, &opponent.nonzero);
    proof {
        listed_hash_is_reach_hash(opponent.values@, opponent.nonzero@, opponent.nonzero@.len());
    }
    let hash: u64 = mix_hash(
        mix_hash(reach_hash, cache_index as u64),
        match side {
            Player::Oop => 0,
            Player::Ip => 1,
        },
    );
    proof {
        assert(places_of(places@) =~= opponent.nonzero@);
    }
    let found: Option<usize> = cache.find(hash, cache_index, side, &places);
    if let Some(index) = found {
        cache.hits = bounded_sum(cache.hits, 1);
        proof {
            assert(keys_of(before.entries@)[index as int] == key);
            assert(before.asked().keys.contains(key));
        }
        if cache.entries[index].sparse == sparse && same_signature(
            &cache.entries[index].signature,
            &signature,
        ) {
            proof {
                assert(entry_holds(caches@, cache.entries@[index as int]));
                assert(signature_below(opponent.values@, opponent.values@.len())
                    == cache.entries@[index as int].signature@);
                assert forall|e: int| 0 <= e < cache.entries@.len() implies #[trigger] cache.is_chained(
                    e,
                ) by {
                    assert(before.is_chained(e));
                }
            }
            return copy_of(&cache.entries[index].values);
        }
    }
    let values: Vec<S> = worked_out(terminal, side, opponent, sparse);
    let kept: Vec<S> = copy_of(&values);
    let previous: Option<usize> = match found {
        Some(index) => cache.entries[index].previous,
        None => match cache.last_by_hash.get(hash) {
            Some(last) => Some(*last),
            None => None,
        },
    };
    let entry = TerminalSideCacheEntry {
        cache_index,
        side,
        listed: places,
        reach_hash,
        hash,
        sparse,
        signature,
        values: kept,
        previous,
    };
    proof {
        assert forall|reach: Seq<S>|
            reach.len() == terminal.prepared.count() && #[trigger] signature_below(
                reach,
                reach.len(),
            ) == entry.signature@ implies entry.values@ == compact_values(
            terminal.prepared,
            terminal.indices(side),
            reach,
            places_of(entry.listed@),
            sparse,
        ) by {
            lemma_signatures_differ(reach, opponent.values@, reach.len());
            assert(reach =~= opponent.values@);
        }
        assert(entry_holds(caches@, entry));
        assert(entry.key() == key);
    }
    let ghost shown = entry;
    match found {
        Some(index) => {
            cache.entries.set(index, entry);
            proof {
                let now = cache.entries@;
                assert(before.is_chained(index as int));
                assert forall|e: int| 0 <= e < now.len() implies (#[trigger] now[e]).hash
                    == before.entries@[e].hash && now[e].previous == before.entries@[e].previous
                    && now[e].key() == before.entries@[e].key() && entry_holds(caches@, now[e]) by {
                    assert(entry_holds(caches@, before.entries@[e]));
                }
                assert forall|e: int| 0 <= e < now.len() implies #[trigger] cache.is_chained(e) by {
                    assert(before.is_chained(e));
                    assert forall|d: int|
                        0 <= d < e && (#[trigger] now[d]).hash == now[e].hash implies (
                    now[e].previous matches Some(p) && d <= p) by {
                        assert(before.entries@[d].hash == before.entries@[e].hash);
                    }
                }
                assert(keys_of(now) =~= keys_of(before.entries@));
            }
        },
        None => {
            cache.misses = bounded_sum(cache.misses, 1);
            let id: usize = cache.entries.len();
            cache.entries.push(entry);
            cache.last_by_hash.insert(hash, id);
            proof {
                let now = cache.entries@;
                assert(now =~= before.entries@.push(shown));
                assert(keys_of(now) =~= keys_of(before.entries@).push(key));
                assert forall|e: int| 0 <= e < now.len() implies entry_holds(
                    caches@,
                    #[trigger] now[e],
                ) by {
                    if e < id {
                        assert(now[e] == before.entries@[e]);
                    }
                }
                assert forall|e: int| 0 <= e < now.len() implies #[trigger] cache.is_chained(e) by {
                    if e < id {
                        assert(before.is_chained(e));
                        assert(now[e] == before.entries@[e]);
                    }
                    assert forall|d: int|
                        0 <= d < e && (#[trigger] now[d]).hash == now[e].hash implies (
                    now[e].previous matches Some(p) && d <= p) by {
                        assert(before.is_chained(d));
                        assert(now[d] == before.entries@[d]);
                    }
                }
                assert forall|h: u64| #[trigger]
                    cache.last_by_hash@.contains_key(h) implies cache.last_by_hash@[h] < now.len()
                    && now[cache.last_by_hash@[h] as int].hash == h by {
                    if h != hash {
                        assert(before.last_by_hash@.contains_key(h));
                    }
                }
            }
        },
    }
    values
}

fn worked_out<S: Scalar>(
    terminal: &TerminalEvalCache,
    side: Player,
    opponent: &LiveReach<S>,
    sparse: bool,
) -> (r: Vec<S>)
    requires
        terminal.prepared.wf(),
        opponent.values@.len() == terminal.prepared.count(),
        forall|k: int|
            0 <= k < opponent.nonzero@.len() ==> #[trigger] opponent.nonzero@[k]
                < opponent.values@.len(),
        forall|i: int|
            0 <= i < terminal.indices(side).len() ==> (
            #[trigger] terminal.indices(side)[i] matches Some(b) ==> b < terminal.prepared.count()),
    ensures
        r@ == compact_values(
            terminal.prepared,
            terminal.indices(side),
            opponent.values@,
            opponent.nonzero@,
            sparse,
        ),
{
    proof {
        let list = match side {
            Player::Oop => terminal.oop_combo_indices@,
            Player::Ip => terminal.ip_combo_indices@,
        };
        assert(list == terminal.indices(side));
        assert forall|i: int| 0 <= i < list.len() implies (#[trigger] list[i] matches Some(b) ==> b
            < terminal.prepared.count()) by {
            assert(terminal.indices(side)[i] == list[i]);
        }
    }
    match side {
        Player::Oop => terminal_side_values(
            &terminal.prepared,
            &terminal.oop_combo_indices,
            &opponent.values,
            &opponent.nonzero,
            sparse,
        ),
        Player::Ip => terminal_side_values(
            &terminal.prepared,
            &terminal.ip_combo_indices,
            &opponent.values,
            &opponent.nonzero,
            sparse,
        ),
    }
}

} // verus!
