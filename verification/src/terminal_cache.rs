//! Finished boards prepared for ranges, and values gathered over them.
use vstd::prelude::*;
use crate::cards::{Board, Card};
use crate::cfr_math::{zeros, zeros_spec};
use crate::isomorphism::{
    keeps_combos, private_combo_permutation_indices, target_place, SuitPermutation,
};
use crate::range::ComboWeight;
use crate::scalar::Scalar;
use crate::terminal_board::PreparedTerminalBoard;
use crate::terminal_cfv::{prefix_sum, prepares};
use crate::tree::Player;

verus! {

/// A hand that can be held on a board: its place in its range and among the board's hands.
#[derive(Clone, Copy, Debug, PartialEq, Eq, Structural)]
pub struct PreparedComboTarget {
    pub range_index: usize,
    pub board_index: u16,
}

/// Whether a hand is none of the hands of a board.
pub open spec fn is_absent(prepared: PreparedTerminalBoard, first: Card, second: Card) -> bool {
    forall|b: int|
        0 <= b < prepared.count() ==> !(#[trigger] prepared.combos_spec()[b]).is_pair(first, second)
}

/// Whether places are those of a range's hands among the hands of a board.
pub open spec fn are_indices<S>(
    prepared: PreparedTerminalBoard,
    combos: Seq<ComboWeight<S>>,
    indices: Seq<Option<usize>>,
) -> bool {
    &&& indices.len() == combos.len()
    &&& forall|i: int|
        0 <= i < indices.len() ==> match #[trigger] indices[i] {
            Some(b) => b < prepared.count() && prepared.combos_spec()[b as int].is_pair(
                combos[i].first,
                combos[i].second,
            ),
            None => is_absent(prepared, combos[i].first, combos[i].second),
        }
}

/// The places of a range's hands among the hands of a board.
pub fn prepared_combo_indices<S: Scalar>(prepared: &PreparedTerminalBoard, combos: &[ComboWeight<S>]) -> (r:
    Vec<Option<usize>>)
    requires
        prepared.wf(),
    ensures
        are_indices(*prepared, combos@, r@),
{
    let mut indices: Vec<Option<usize>> = Vec::new();
    for i in 0..combos.len()
        invariant
            prepared.wf(),
            are_indices(*prepared, combos@.take(i as int), indices@),
    {
        let ghost was = indices@;
        let found: Option<usize> = prepared.combo_index(combos[i].first, combos[i].second);
        indices.push(found);
        proof {
            assert forall|k: int| 0 <= k < indices@.len() implies match #[trigger] indices@[k] {
                Some(b) => b < prepared.count() && prepared.combos_spec()[b as int].is_pair(
                    combos@.take(i + 1)[k].first,
                    combos@.take(i + 1)[k].second,
                ),
                None => is_absent(
                    *prepared,
                    combos@.take(i + 1)[k].first,
                    combos@.take(i + 1)[k].second,
                ),
            } by {
                if k < i {
                    assert(indices@[k] == was[k]);
                    assert(combos@.take(i + 1)[k] == combos@.take(i as int)[k]);
                }
            }
        }
    }
    proof {
        assert(combos@.take(combos@.len() as int) =~= combos@);
    }
    indices
}

/// The hands of the first `n` that can be held.
pub open spec fn targets_below(indices: Seq<Option<usize>>, n: nat) -> Seq<PreparedComboTarget>
    decreases n,
{
    if n == 0 {
        Seq::empty()
    } else {
        let front = targets_below(indices, (n - 1) as nat);
        match indices[n - 1] {
            Some(b) => front.push(
                PreparedComboTarget { range_index: (n - 1) as usize, board_index: b as u16 },
            ),
            None => front,
        }
    }
}

/// The hands that can be held.
pub fn prepared_combo_targets(indices: &[Option<usize>], count: usize) -> (r: Vec<PreparedComboTarget>)
    requires
        count <= 0xffff,
        forall|i: int|
            0 <= i < indices@.len() ==> (#[trigger] indices@[i] matches Some(b) ==> b < count),
    ensures
        r@ == targets_below(indices@, indices@.len()),
        forall|k: int|
            0 <= k < r@.len() ==> {
                let target = #[trigger] r@[k];
                target.range_index < indices@.len() && target.board_index < count
            },
{
    let mut targets: Vec<PreparedComboTarget> = Vec::new();
    for i in 0..indices.len()
        invariant
            count <= 0xffff,
            forall|k: int|
                0 <= k < indices@.len() ==> (#[trigger] indices@[k] matches Some(b) ==> b < count),
            targets@ == targets_below(indices@, i as nat),
            forall|k: int|
                0 <= k < targets@.len() ==> {
                    let target = #[trigger] targets@[k];
                    target.range_index < i && target.board_index < count
                },
    {
        if let Some(board_index) = indices[i] {
            proof {
                assert(indices@[i as int] == Some(board_index));
            }
            targets.push(PreparedComboTarget { range_index: i, board_index: board_index as u16 });
        }
    }
    targets
}

/// The reach of the first `n` targets, by their places on the board.
pub open spec fn live_reach<S: Scalar>(
    targets: Seq<PreparedComboTarget>,
    reach: Seq<S>,
    count: nat,
    n: nat,
) -> Seq<S>
    decreases n,
{
    if n == 0 {
        zeros_spec::<S>(count)
    } else {
        let front = live_reach(targets, reach, count, (n - 1) as nat);
        let target = targets[n - 1];
        let value = reach[target.range_index as int];
        let b = target.board_index as int;
        if value.same_spec(S::zero_spec()) {
            front
        } else {
            front.update(b, front[b].plus_spec(value))
        }
    }
}

/// The places on the board at which the reach of the first `n` targets became more than nothing.
pub open spec fn live_places<S: Scalar>(
    targets: Seq<PreparedComboTarget>,
    reach: Seq<S>,
    count: nat,
    n: nat,
) -> Seq<u16>
    decreases n,
{
    if n == 0 {
        Seq::empty()
    } else {
        let front = live_places(targets, reach, count, (n - 1) as nat);
        let target = targets[n - 1];
        if !reach[target.range_index as int].same_spec(S::zero_spec()) && live_reach(
            targets,
            reach,
            count,
            (n - 1) as nat,
        )[target.board_index as int].same_spec(S::zero_spec()) {
            front.push(target.board_index)
        } else {
            front
        }
    }
}

/// A reach by places on a board, and the places at which it is more than nothing.
pub struct LiveReach<S> {
    pub values: Vec<S>,
    pub nonzero: Vec<u16>,
}

/// The reach of a range on a board.
pub fn reach_on_prepared_board_targets_sparse<S: Scalar>(
    targets: &[PreparedComboTarget],
    reach: &[S],
    count: usize,
) -> (r: LiveReach<S>)
    requires
        forall|k: int|
            0 <= k < targets@.len() ==> {
                let target = #[trigger] targets@[k];
                target.range_index < reach@.len() && target.board_index < count
            },
    ensures
        r.values@ == live_reach(targets@, reach@, count as nat, targets@.len()),
        r.nonzero@ == live_places(targets@, reach@, count as nat, targets@.len()),
        r.values@.len() == count,
        forall|k: int| 0 <= k < r.nonzero@.len() ==> #[trigger] r.nonzero@[k] < count,
{
    let mut values: Vec<S> = zeros(count);
    let mut nonzero: Vec<u16> = Vec::new();
    for k in 0..targets.len()
        invariant
            forall|j: int|
                0 <= j < targets@.len() ==> {
                    let target = #[trigger] targets@[j];
                    target.range_index < reach@.len() && target.board_index < count
                },
            values@ == live_reach(targets@, reach@, count as nat, k as nat),
            values@.len() == count,
            nonzero@ == live_places(targets@, reach@, count as nat, k as nat),
            forall|j: int| 0 <= j < nonzero@.len() ==> #[trigger] nonzero@[j] < count,
    {
        let target: PreparedComboTarget = targets[k];
        proof {
            assert(targets@[k as int].range_index < reach@.len());
        }
        let value: S = reach[target.range_index];
        if !value.same(S::zero()) {
            let b: usize = target.board_index as usize;
            if values[b].same(S::zero()) {
                nonzero.push(target.board_index);
            }
            let sum: S = values[b].plus(value);
            values.set(b, sum);
        }
    }
    LiveReach { values, nonzero }
}

/// The values of a range's hands against an opponent's reach on a board: over the listed places, or by
/// prefix sums; zero for hands that cannot be held.
pub open spec fn compact_values<S: Scalar>(
    prepared: PreparedTerminalBoard,
    indices: Seq<Option<usize>>,
    reach: Seq<S>,
    places: Seq<u16>,
    sparse: bool,
) -> Seq<S> {
    Seq::new(
        indices.len(),
        |i: int|
            match indices[i] {
                Some(b) => if sparse {
                    prepared.listed_value(reach, places, b as int, places.len())
                } else {
                    prepared.side_value(reach, b as int)
                },
                None => S::zero_spec(),
            },
    )
}

/// The values of a range's hands against an opponent's reach on a board.
pub fn terminal_side_values<S: Scalar>(
    prepared: &PreparedTerminalBoard,
    indices: &[Option<usize>],
    reach: &[S],
    places: &[u16],
    sparse: bool,
) -> (r: Vec<S>)
    requires
        prepared.wf(),
        reach@.len() == prepared.count(),
        forall|i: int|
            0 <= i < indices@.len() ==> (#[trigger] indices@[i] matches Some(b) ==> b
                < prepared.count()),
        forall|k: int| 0 <= k < places@.len() ==> #[trigger] places@[k] < prepared.count(),
    ensures
        r@ == compact_values(*prepared, indices@, reach@, places@, sparse),
{
    proof {
        prepared.wf_facts();
    }
    let mut prefix: Vec<S> = zeros(prepared.len() + 1);
    if !sparse {
        prepared.prefix_sums_into(reach, &mut prefix);
    }
    let mut values: Vec<S> = Vec::new();
    for i in 0..indices.len()
        invariant
            prepared.wf(),
            reach@.len() == prepared.count(),
            forall|k: int|
                0 <= k < indices@.len() ==> (#[trigger] indices@[k] matches Some(b) ==> b
                    < prepared.count()),
            forall|k: int| 0 <= k < places@.len() ==> #[trigger] places@[k] < prepared.count(),
            prefix@.len() == prepared.count() + 1,
            !sparse ==> forall|k: int|
                0 <= k <= prepared.count() ==> #[trigger] prefix@[k] == prefix_sum(
                    prepared.order_spec(),
                    reach@,
                    k as nat,
                ),
            values@ =~= compact_values(*prepared, indices@, reach@, places@, sparse).take(i as int),
    {
        let value: S = match indices[i] {
            Some(b) => {
                proof {
                    assert(indices@[i as int] == Some(b));
                }
                if sparse {
                    prepared.listed_value_at(reach, places, b)
                } else {
                    prepared.side_value_at(reach, &prefix, b)
                }
            },
            None => S::zero(),
        };
        values.push(value);
    }
    proof {
        let goal = compact_values(*prepared, indices@, reach@, places@, sparse);
        assert(goal.take(indices@.len() as int) =~= goal);
    }
    values
}

/// A finished board prepared for two ranges.
#[derive(Clone, Debug)]
pub struct TerminalEvalCache {
    pub board: Board,
    pub prepared: PreparedTerminalBoard,
    pub oop_combo_indices: Vec<Option<usize>>,
    pub ip_combo_indices: Vec<Option<usize>>,
    pub oop_targets: Vec<PreparedComboTarget>,
    pub ip_targets: Vec<PreparedComboTarget>,
}

impl TerminalEvalCache {
    /// The places of a player's hands.
    pub open spec fn indices(self, player: Player) -> Seq<Option<usize>> {
        match player {
            Player::Oop => self.oop_combo_indices@,
            Player::Ip => self.ip_combo_indices@,
        }
    }

    /// A player's hands that can be held.
    pub open spec fn targets(self, player: Player) -> Seq<PreparedComboTarget> {
        targets_below(self.indices(player), self.indices(player).len())
    }

    /// Whether the tables are those of the board and the ranges.
    pub open spec fn fits<S: Scalar>(self, oop: Seq<ComboWeight<S>>, ip: Seq<ComboWeight<S>>) -> bool {
        &&& self.board.wf()
        &&& self.prepared.wf()
        &&& prepares(&self.prepared, self.board@)
        &&& are_indices(self.prepared, oop, self.oop_combo_indices@)
        &&& are_indices(self.prepared, ip, self.ip_combo_indices@)
        &&& self.oop_targets@ == self.targets(Player::Oop)
        &&& self.ip_targets@ == self.targets(Player::Ip)
        &&& forall|k: int|
            0 <= k < self.oop_targets@.len() ==> {
                let target = #[trigger] self.oop_targets@[k];
                target.range_index < oop.len() && target.board_index < self.prepared.count()
            }
        &&& forall|k: int|
            0 <= k < self.ip_targets@.len() ==> {
                let target = #[trigger] self.ip_targets@[k];
                target.range_index < ip.len() && target.board_index < self.prepared.count()
            }
    }

    /// A finished board prepared for two ranges.
    pub fn new<S: Scalar>(board: &Board, oop: &[ComboWeight<S>], ip: &[ComboWeight<S>]) -> (r: Self)
        requires
            board.wf(),
            board@.len() == 5,
        ensures
            r.fits(oop@, ip@),
            r.board == *board,
    {
        let prepared: PreparedTerminalBoard = match PreparedTerminalBoard::new(board) {
            Ok(prepared) => prepared,
            Err(_) => {
                proof {
                    assert(false);
                }
                vstd::pervasive::unreached()
            },
        };
        proof {
            prepared.wf_facts();
        }
        let oop_combo_indices: Vec<Option<usize>> = prepared_combo_indices(&prepared, oop);
        let ip_combo_indices: Vec<Option<usize>> = prepared_combo_indices(&prepared, ip);
        proof {
            assert forall|i: int| 0 <= i < oop_combo_indices@.len() implies (
            #[trigger] oop_combo_indices@[i] matches Some(b) ==> b < prepared.count()) by {}
            assert forall|i: int| 0 <= i < ip_combo_indices@.len() implies (
            #[trigger] ip_combo_indices@[i] matches Some(b) ==> b < prepared.count()) by {}
        }
        let oop_targets: Vec<PreparedComboTarget> = prepared_combo_targets(
            &oop_combo_indices,
            prepared.len(),
        );
        let ip_targets: Vec<PreparedComboTarget> = prepared_combo_targets(
            &ip_combo_indices,
            prepared.len(),
        );
        TerminalEvalCache {
            board: *board,
            prepared,
            oop_combo_indices,
            ip_combo_indices,
            oop_targets,
            ip_targets,
        }
    }
}

/// Where a permutation takes each hand of the two ranges.
#[derive(Clone, Debug)]
pub struct ComboPermutationMaps {
    pub oop_source_to_target: Vec<usize>,
    pub ip_source_to_target: Vec<usize>,
}

/// Whether a list says where a permutation takes each hand of a range.
pub open spec fn is_target_list<S: Scalar>(
    combos: Seq<ComboWeight<S>>,
    permutation: SuitPermutation,
    list: Seq<usize>,
) -> bool {
    &&& list.len() == combos.len()
    &&& forall|i: int|
        0 <= i < list.len() ==> #[trigger] list[i] == target_place(combos, permutation, i) && list[i]
            < combos.len()
}

/// Where each permutation that keeps both ranges takes their hands, by the permutation's code.
#[derive(Clone, Debug)]
pub struct ComboPermutations {
    pub maps: Vec<Option<ComboPermutationMaps>>,
}

/// Whether a code is that of a permutation that keeps both ranges.
pub open spec fn code_keeps<S: Scalar>(
    oop: Seq<ComboWeight<S>>,
    ip: Seq<ComboWeight<S>>,
    code: int,
) -> bool {
    let permutation = SuitPermutation::at(code);
    permutation.wf() && keeps_combos(oop, permutation) && keeps_combos(ip, permutation)
}

/// Whether the maps of a code are those of its permutation.
pub open spec fn code_mapped<S: Scalar>(
    oop: Seq<ComboWeight<S>>,
    ip: Seq<ComboWeight<S>>,
    maps: Option<ComboPermutationMaps>,
    code: int,
) -> bool {
    match maps {
        Some(list) => {
            &&& code_keeps(oop, ip, code)
            &&& is_target_list(oop, SuitPermutation::at(code), list.oop_source_to_target@)
            &&& is_target_list(ip, SuitPermutation::at(code), list.ip_source_to_target@)
        },
        None => !code_keeps(oop, ip, code),
    }
}

impl ComboPermutations {
    /// Whether the maps are those of all permutations that keep two ranges.
    pub open spec fn fits<S: Scalar>(self, oop: Seq<ComboWeight<S>>, ip: Seq<ComboWeight<S>>) -> bool {
        &&& self.maps@.len() == 256
        &&& forall|code: int|
            0 <= code < 256 ==> code_mapped(oop, ip, #[trigger] self.maps@[code], code)
    }

    /// Where the permutation of a code takes a player's hands.
    pub open spec fn map_of(self, player: Player, code: u8) -> Seq<usize> {
        match self.maps@[code as int] {
            Some(list) => match player {
                Player::Oop => list.oop_source_to_target@,
                Player::Ip => list.ip_source_to_target@,
            },
            None => Seq::empty(),
        }
    }

    /// The maps of all permutations that keep two ranges.
    pub fn new<S: Scalar>(oop: &[ComboWeight<S>], ip: &[ComboWeight<S>]) -> (r: Self)
        ensures
            r.fits(oop@, ip@),
    {
        let mut maps: Vec<Option<ComboPermutationMaps>> = Vec::new();
        for k in 0..256
            invariant
                maps@.len() == k,
                forall|code: int|
                    0 <= code < k ==> code_mapped(oop@, ip@, #[trigger] maps@[code], code),
        {
            let ghost was = maps@;
            let clubs: crate::cards::Suit = crate::cards::Suit::from_index(k / 64);
            let diamonds: crate::cards::Suit = crate::cards::Suit::from_index((k / 16) % 4);
            let hearts: crate::cards::Suit = crate::cards::Suit::from_index((k / 4) % 4);
            let spades: crate::cards::Suit = crate::cards::Suit::from_index(k % 4);
            let permutation = SuitPermutation { clubs, diamonds, hearts, spades };
            proof {
                assert(permutation == SuitPermutation::at(k as int));
            }
            let mut entry: Option<ComboPermutationMaps> = None;
            if clubs != diamonds && clubs != hearts && clubs != spades && diamonds != hearts
                && diamonds != spades && hearts != spades {
                let oop_list: Option<Vec<usize>> = private_combo_permutation_indices(
                    oop,
                    permutation,
                );
                let ip_list: Option<Vec<usize>> = private_combo_permutation_indices(ip, permutation);
                if let Some(oop_source_to_target) = oop_list {
                    if let Some(ip_source_to_target) = ip_list {
                        entry =
                        Some(ComboPermutationMaps { oop_source_to_target, ip_source_to_target });
                    }
                }
            }
            maps.push(entry);
            proof {
                assert forall|code: int| 0 <= code < k + 1 implies code_mapped(
                    oop@,
                    ip@,
                    #[trigger] maps@[code],
                    code,
                ) by {
                    if code < k {
                        assert(maps@[code] == was[code]);
                    }
                }
            }
        }
        ComboPermutations { maps }
    }
}

/// The code of a permutation is the place at which it is found.
pub proof fn code_finds_permutation(permutation: SuitPermutation)
    ensures
        permutation.code_spec() < 256,
        SuitPermutation::at(permutation.code_spec() as int) == permutation,
{
    use_suits(permutation.clubs);
    use_suits(permutation.diamonds);
    use_suits(permutation.hearts);
    use_suits(permutation.spades);
}

proof fn use_suits(suit: crate::cards::Suit)
    ensures
        suit.ord() < 4,
        crate::cards::Suit::at(suit.ord() as int) == suit,
{
}

/// A class of finished boards: the prepared one that stands for it, and the permutations that make it of
/// the others.
#[derive(Clone, Debug)]
pub struct TerminalCacheRef {
    pub cache_index: usize,
    pub member_permutation_codes: Vec<u8>,
}

/// Sums of values and counts of the boards they were taken over.
pub ghost struct SideSums<S> {
    pub values: Seq<S>,
    pub counts: Seq<S>,
}

/// Sums with the values of one more board added, taken where a map takes each hand; or only the count.
pub open spec fn board_added<S: Scalar>(
    sums: SideSums<S>,
    side: Option<Seq<S>>,
    indices: Seq<Option<usize>>,
    map: Seq<usize>,
    pot: S,
) -> SideSums<S> {
    SideSums {
        values: Seq::new(
            sums.values.len(),
            |s: int|
                match side {
                    Some(values) => if indices[map[s] as int] is Some {
                        sums.values[s].plus_spec(values[map[s] as int].times_spec(pot))
                    } else {
                        sums.values[s]
                    },
                    None => sums.values[s],
                },
        ),
        counts: Seq::new(
            sums.counts.len(),
            |s: int|
                if indices[map[s] as int] is Some {
                    sums.counts[s].plus_spec(S::one_spec())
                } else {
                    sums.counts[s]
                },
        ),
    }
}

/// Sums with the values of the first `n` members of a class added.
pub open spec fn members_gathered<S: Scalar>(
    sums: SideSums<S>,
    side: Option<Seq<S>>,
    indices: Seq<Option<usize>>,
    permutations: ComboPermutations,
    player: Player,
    codes: Seq<u8>,
    pot: S,
    n: nat,
) -> SideSums<S>
    decreases n,
{
    if n == 0 {
        sums
    } else {
        board_added(
            members_gathered(
                sums,
                side,
                indices,
                permutations,
                player,
                codes,
                pot,
                (n - 1) as nat,
            ),
            side,
            indices,
            permutations.map_of(player, codes[n - 1]),
            pot,
        )
    }
}

/// Values over the boards they were summed over.
pub open spec fn finished<S: Scalar>(sums: SideSums<S>) -> Seq<S> {
    Seq::new(
        sums.values.len(),
        |s: int|
            if sums.counts[s].exceeds_spec(S::zero_spec()) {
                sums.values[s].over_spec(sums.counts[s])
            } else {
                sums.values[s]
            },
    )
}

/// Sums of values and counts of the boards they were taken over.
#[derive(Clone, Debug)]
pub struct SideAccumulator<S> {
    pub values: Vec<S>,
    pub counts: Vec<S>,
}

impl<S: Scalar> View for SideAccumulator<S> {
    type V = SideSums<S>;

    open spec fn view(&self) -> SideSums<S> {
        SideSums { values: self.values@, counts: self.counts@ }
    }
}

/// Sums over no board.
pub open spec fn no_sums<S: Scalar>(count: nat) -> SideSums<S> {
    SideSums { values: zeros_spec::<S>(count), counts: zeros_spec::<S>(count) }
}

impl<S: Scalar> SideAccumulator<S> {
    /// Sums over no board.
    pub fn zero(count: usize) -> (r: Self)
        ensures
            r@ == no_sums::<S>(count as nat),
    {
        SideAccumulator { values: zeros(count), counts: zeros(count) }
    }

    /// Adds the values of one more board.
    pub fn add_board(
        &mut self,
        side: Option<&Vec<S>>,
        indices: &Vec<Option<usize>>,
        map: &Vec<usize>,
        pot: S,
    )
        requires
            old(self)@.values.len() == map@.len(),
            old(self)@.counts.len() == map@.len(),
            forall|s: int| 0 <= s < map@.len() ==> #[trigger] map@[s] < indices@.len(),
            side matches Some(values) ==> values@.len() == indices@.len(),
        ensures
            final(self)@ == board_added(
                old(self)@,
                match side {
                    Some(values) => Some(values@),
                    None => None,
                },
                indices@,
                map@,
                pot,
            ),
    {
        let ghost before = self@;
        let ghost list = match side {
            Some(values) => Some(values@),
            None => None,
        };
        let ghost goal = board_added(before, list, indices@, map@, pot);
        for s in 0..map.len()
            invariant
                before.values.len() == map@.len(),
                before.counts.len() == map@.len(),
                forall|k: int| 0 <= k < map@.len() ==> #[trigger] map@[k] < indices@.len(),
                side matches Some(values) ==> values@.len() == indices@.len(),
                list == (match side {
                    Some(values) => Some(values@),
                    None => None,
                }),
                goal == board_added(before, list, indices@, map@, pot),
                self.values@.len() == map@.len(),
                self.counts@.len() == map@.len(),
                forall|k: int| 0 <= k < s ==> #[trigger] self.values@[k] == goal.values[k],
                forall|k: int| 0 <= k < s ==> #[trigger] self.counts@[k] == goal.counts[k],
                forall|k: int| s <= k < map@.len() ==> #[trigger] self.values@[k] == before.values[k],
                forall|k: int| s <= k < map@.len() ==> #[trigger] self.counts@[k] == before.counts[k],
        {
            let target: usize = map[s];
            if indices[target].is_some() {
                if let Some(values) = side {
                    let value: S = self.values[s].plus(values[target].times(pot));
                    self.values.set(s, value);
                }
                let count: S = self.counts[s].plus(S::one());
                self.counts.set(s, count);
            }
        }
        proof {
            assert(self.values@ =~= goal.values);
            assert(self.counts@ =~= goal.counts);
        }
    }

    /// Adds the values of the members of a class.
    pub fn add_members(
        &mut self,
        side: Option<&Vec<S>>,
        indices: &Vec<Option<usize>>,
        permutations: &ComboPermutations,
        player: Player,
        codes: &Vec<u8>,
        pot: S,
    )
        requires
            old(self)@.values.len() == indices@.len(),
            old(self)@.counts.len() == indices@.len(),
            permutations.maps@.len() == 256,
            side matches Some(values) ==> values@.len() == indices@.len(),
            forall|k: int|
                0 <= k < codes@.len() ==> permutations.maps@[#[trigger] codes@[k] as int] is Some
                    && maps_into(permutations.map_of(player, codes@[k]), indices@.len()),
        ensures
            final(self)@ == members_gathered(
                old(self)@,
                match side {
                    Some(values) => Some(values@),
                    None => None,
                },
                indices@,
                *permutations,
                player,
                codes@,
                pot,
                codes@.len(),
            ),
            final(self)@.values.len() == indices@.len(),
            final(self)@.counts.len() == indices@.len(),
    {
        let ghost before = self@;
        let ghost list = match side {
            Some(values) => Some(values@),
            None => None,
        };
        for k in 0..codes.len()
            invariant
                permutations.maps@.len() == 256,
                side matches Some(values) ==> values@.len() == indices@.len(),
                list == (match side {
                    Some(values) => Some(values@),
                    None => None,
                }),
                forall|j: int|
                    0 <= j < codes@.len() ==> permutations.maps@[#[trigger] codes@[j] as int] is Some
                        && maps_into(permutations.map_of(player, codes@[j]), indices@.len()),
                self@.values.len() == indices@.len(),
                self@.counts.len() == indices@.len(),
                self@ == members_gathered(
                    before,
                    list,
                    indices@,
                    *permutations,
                    player,
                    codes@,
                    pot,
                    k as nat,
                ),
        {
            let code: usize = codes[k] as usize;
            proof {
                assert(permutations.maps@[codes@[k as int] as int] is Some);
                assert(maps_into(permutations.map_of(player, codes@[k as int]), indices@.len()));
            }
            match &permutations.maps[code] {
                Some(maps) => {
                    match player {
                        Player::Oop => {
                            self.add_board(side, indices, &maps.oop_source_to_target, pot);
                        },
                        Player::Ip => {
                            self.add_board(side, indices, &maps.ip_source_to_target, pot);
                        },
                    }
                },
                None => {},
            }
        }
    }

    /// The values over the boards they were summed over.
    pub fn finish(self) -> (r: Vec<S>)
        requires
            self@.values.len() == self@.counts.len(),
        ensures
            r@ == finished(self@),
    {
        let mut out: Vec<S> = Vec::new();
        for s in 0..self.values.len()
            invariant
                self.values@.len() == self.counts@.len(),
                out@ =~= finished(self@).take(s as int),
        {
            if self.counts[s].exceeds(S::zero()) {
                out.push(self.values[s].over(self.counts[s]));
            } else {
                out.push(self.values[s]);
            }
        }
        proof {
            assert(finished(self@).take(self.values@.len() as int) =~= finished(self@));
        }
        out
    }
}

/// Whether a map takes so many places to places among them.
pub open spec fn maps_into(map: Seq<usize>, count: nat) -> bool {
    &&& map.len() == count
    &&& forall|s: int| 0 <= s < map.len() ==> #[trigger] map[s] < count
}

/// The entries of the first `n` numbers that are not the number zero, with their places.
pub open spec fn signature_below<S: Scalar>(values: Seq<S>, n: nat) -> Seq<(u16, S)>
    decreases n,
{
    if n == 0 {
        Seq::empty()
    } else {
        let front = signature_below(values, (n - 1) as nat);
        if values[n - 1].bits_spec() == S::zero_spec().bits_spec() {
            front
        } else {
            front.push(((n - 1) as u16, values[n - 1]))
        }
    }
}

proof fn lemma_signature_places<S: Scalar>(values: Seq<S>, n: nat)
    requires
        n <= 0xffff,
    ensures
        forall|k: int|
            0 <= k < signature_below(values, n).len() ==> (#[trigger] signature_below(values, n)[k]).0
                < n,
    decreases n,
{
    if n > 0 {
        let front = signature_below(values, (n - 1) as nat);
        lemma_signature_places(values, (n - 1) as nat);
        assert forall|k: int| 0 <= k < signature_below(values, n).len() implies (
        #[trigger] signature_below(values, n)[k]).0 < n by {
            if k < front.len() {
                assert(signature_below(values, n)[k] == front[k]);
            }
        }
    }
}

/// Numbers of one signature are equal.
pub proof fn lemma_signatures_differ<S: Scalar>(a: Seq<S>, b: Seq<S>, n: nat)
    requires
        n <= 0xffff,
        n <= a.len(),
        n <= b.len(),
        signature_below(a, n) == signature_below(b, n),
    ensures
        forall|i: int| 0 <= i < n ==> #[trigger] a[i] == b[i],
    decreases n,
{
    if n > 0 {
        let m = (n - 1) as nat;
        lemma_signature_places(a, m);
        lemma_signature_places(b, m);
        let zero = S::zero_spec();
        let (fa, fb) = (signature_below(a, m), signature_below(b, m));
        let (wa, wb) = (signature_below(a, n), signature_below(b, n));
        if a[n - 1].bits_spec() == zero.bits_spec() {
            S::bits_tell_apart(a[n - 1], zero);
            if b[n - 1].bits_spec() == zero.bits_spec() {
                S::bits_tell_apart(b[n - 1], zero);
            } else {
                assert(wa[fb.len() as int] == wb[fb.len() as int]);
                assert(fa[fb.len() as int].0 < m);
            }
        } else {
            if b[n - 1].bits_spec() == zero.bits_spec() {
                assert(wb[fa.len() as int] == wa[fa.len() as int]);
                assert(fb[fa.len() as int].0 < m);
            } else {
                assert(wa.len() == wb.len());
                assert(wa[fa.len() as int] == wb[fb.len() as int]);
                assert(fa =~= wa.drop_last());
                assert(fb =~= wb.drop_last());
            }
        }
        assert(signature_below(a, m) =~= signature_below(b, m));
        lemma_signatures_differ(a, b, m);
    }
}

/// The numbers that are not zero, with their places.
pub fn reach_signature<S: Scalar>(values: &[S]) -> (r: Vec<(u16, S)>)
    requires
        values@.len() <= 0xffff,
    ensures
        r@ == signature_below(values@, values@.len()),
{
    let zero: u64 = S::zero().bits();
    let mut signature: Vec<(u16, S)> = Vec::new();
    for i in 0..values.len()
        invariant
            values@.len() <= 0xffff,
            zero == S::zero_spec().bits_spec(),
            signature@ == signature_below(values@, i as nat),
    {
        if values[i].bits() != zero {
            signature.push((i as u16, values[i]));
        }
    }
    signature
}

/// One step of a hash.
pub open spec fn mixed(hash: u64, value: u64) -> u64 {
    (hash ^ value).wrapping_mul(0x100000001b3)
}

/// One step of a hash.
pub fn mix_hash(hash: u64, value: u64) -> (r: u64)
    ensures
        r == mixed(hash, value),
{
    (hash ^ value).wrapping_mul(0x100000001b3)
}

/// The hash of the numbers at the first `n` listed places.
pub open spec fn reach_hash<S: Scalar>(reach: Seq<S>, places: Seq<u16>, n: nat) -> u64
    decreases n,
{
    if n == 0 {
        0xcbf29ce484222325
    } else {
        mixed(
            mixed(reach_hash(reach, places, (n - 1) as nat), places[n - 1] as u64),
            reach[places[n - 1] as int].bits_spec(),
        )
    }
}

/// The hash of the numbers at listed places.
pub fn hash_sparse_reach<S: Scalar>(reach: &[S], nonzero: &[u16]) -> (r: u64)
    requires
        forall|k: int| 0 <= k < nonzero@.len() ==> #[trigger] nonzero@[k] < reach@.len(),
    ensures
        r == reach_hash(reach@, nonzero@, nonzero@.len()),
{
    let mut hash: u64 = 0xcbf29ce484222325;
    for k in 0..nonzero.len()
        invariant
            forall|j: int| 0 <= j < nonzero@.len() ==> #[trigger] nonzero@[j] < reach@.len(),
            hash == reach_hash(reach@, nonzero@, k as nat),
    {
        let place: usize = nonzero[k] as usize;
        hash = mix_hash(mix_hash(hash, place as u64), reach[place].bits());
    }
    hash
}

} // verus!
