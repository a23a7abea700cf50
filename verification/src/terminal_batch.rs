//! Many reaches on one finished board at once, and the finished boards of a whole tree.
use vstd::prelude::*;
use crate::boards::{boards_are, completions, river_boards_from_flop, terminal_boards};
use crate::cards::{deck_without, mask_of, Board, Card};
use crate::cfr_math::{rows_have, rows_of, zeros};
use crate::deals::pairs;
use crate::index_map::KeyMap;
use crate::range::{ComboWeight, RangeSpec};
use crate::scalar::{ratio, ratio_spec, Scalar};
use crate::state_graph::board_key;
use crate::terminal_board::{blockers_facts, distinct_combos, PreparedTerminalBoard, PrivateCombo};
use crate::terminal_cfv::{less_all, plus_all, prefix_sum, prepares};
use crate::text::around_spec;
use crate::tree::{PublicNode, PublicNodeKind, PublicTree, TerminalReason};

verus! {

/// How often the first `n` hands of a range are a given hand.
pub open spec fn range_reach<S: Scalar>(combos: Seq<ComboWeight<S>>, hand: PrivateCombo, n: nat) -> S
    decreases n,
{
    if n == 0 {
        S::zero_spec()
    } else {
        let front = range_reach(combos, hand, (n - 1) as nat);
        if hand.is_pair(combos[n - 1].first, combos[n - 1].second) {
            front.plus_spec(combos[n - 1].weight)
        } else {
            front
        }
    }
}

impl PreparedTerminalBoard {
    /// How often a range holds each hand of the board.
    pub fn reach_from_range<S: Scalar>(&self, range: &RangeSpec<S>) -> (r: Vec<S>)
        requires
            self.wf(),
        ensures
            r@ == Seq::new(
                self.count(),
                |b: int|
                    range_reach(
                        range.combos_spec(),
                        self.combos_spec()[b],
                        range.combos_spec().len(),
                    ),
            ),
    {
        proof {
            self.wf_facts();
        }
        let mut reach: Vec<S> = zeros(self.len());
        let combos: &[ComboWeight<S>] = range.combos();
        for i in 0..combos.len()
            invariant
                self.wf(),
                distinct_combos(self.combos_spec()),
                reach@.len() == self.count(),
                forall|b: int|
                    0 <= b < reach@.len() ==> #[trigger] reach@[b] == range_reach(
                        combos@,
                        self.combos_spec()[b],
                        i as nat,
                    ),
        {
            let ghost was = reach@;
            match self.combo_index(combos[i].first, combos[i].second) {
                Some(index) => {
                    let sum: S = reach[index].plus(combos[i].weight);
                    reach.set(index, sum);
                    proof {
                        assert forall|b: int| 0 <= b < reach@.len() implies #[trigger] reach@[b]
                            == range_reach(combos@, self.combos_spec()[b], (i + 1) as nat) by {
                            assert(was[b] == range_reach(combos@, self.combos_spec()[b], i as nat));
                            if b != index {
                                let (x, y) = (
                                    self.combos_spec()[b],
                                    self.combos_spec()[index as int],
                                );
                                assert(!x.is_pair(combos@[i as int].first, combos@[i as int].second));
                            }
                        }
                    }
                },
                None => {
                    proof {
                        assert forall|b: int| 0 <= b < reach@.len() implies #[trigger] reach@[b]
                            == range_reach(combos@, self.combos_spec()[b], (i + 1) as nat) by {
                            assert(was[b] == range_reach(combos@, self.combos_spec()[b], i as nat));
                        }
                    }
                },
            }
        }
        proof {
            assert(reach@ =~= Seq::new(
                self.count(),
                |b: int|
                    range_reach(
                        range.combos_spec(),
                        self.combos_spec()[b],
                        range.combos_spec().len(),
                    ),
            ));
        }
        reach
    }
}

/// The values of all hands against each of many reaches.
pub open spec fn column_values<S: Scalar>(prepared: PreparedTerminalBoard, reaches: Seq<Seq<S>>) -> Seq<Seq<S>> {
    Seq::new(
        reaches.len(),
        |column: int|
            Seq::new(prepared.count(), |hero: int| prepared.side_value(reaches[column], hero)),
    )
}

/// Sums over the order for every reach: one list for each place, with one sum for each reach.
fn column_sums<S: Scalar>(prepared: &PreparedTerminalBoard, reaches: &Vec<Vec<S>>) -> (r: Vec<Vec<S>>)
    requires
        prepared.wf(),
        rows_have(reaches@, reaches@.len() as int, prepared.count() as int),
    ensures
        rows_have(r@, prepared.count() as int + 1, reaches@.len() as int),
        forall|k: int, c: int|
            0 <= k <= prepared.count() && 0 <= c < reaches@.len() ==> #[trigger] r@[k]@[c] == prefix_sum(
                prepared.order_spec(),
                reaches@[c]@,
                k as nat,
            ),
{
    proof {
        prepared.wf_facts();
    }
    let columns: usize = reaches.len();
    let n: usize = prepared.len();
    let mut sums: Vec<Vec<S>> = Vec::new();
    sums.push(zeros(columns));
    for place in 0..n
        invariant
            prepared.wf(),
            n == prepared.count(),
            columns == reaches@.len(),
            rows_have(reaches@, columns as int, n as int),
            sums@.len() == place + 1,
            forall|k: int| 0 <= k <= place ==> (#[trigger] sums@[k])@.len() == columns,
            forall|k: int, c: int|
                0 <= k <= place && 0 <= c < columns ==> #[trigger] sums@[k]@[c] == prefix_sum(
                    prepared.order_spec(),
                    reaches@[c]@,
                    k as nat,
                ),
    {
        let ghost was = sums@;
        proof {
            prepared.wf_facts();
            assert(sums@[place as int]@.len() == columns);
        }
        let combo: usize = prepared.ordered(place);
        let mut next: Vec<S> = Vec::new();
        for column in 0..columns
            invariant
                prepared.wf(),
                n == prepared.count(),
                place < n,
                columns == reaches@.len(),
                rows_have(reaches@, columns as int, n as int),
                combo == prepared.order_spec()[place as int],
                combo < n,
                sums@.len() == place + 1,
                sums@[place as int]@.len() == columns,
                forall|c: int|
                    0 <= c < columns ==> #[trigger] sums@[place as int]@[c] == prefix_sum(
                        prepared.order_spec(),
                        reaches@[c]@,
                        place as nat,
                    ),
                next@.len() == column,
                forall|c: int|
                    0 <= c < column ==> #[trigger] next@[c] == prefix_sum(
                        prepared.order_spec(),
                        reaches@[c]@,
                        (place + 1) as nat,
                    ),
        {
            proof {
                assert(reaches@[column as int]@.len() == n);
            }
            next.push(sums[place][column].plus(reaches[column][combo]));
        }
        sums.push(next);
        proof {
            assert forall|k: int, c: int| 0 <= k <= place + 1 && 0 <= c < columns implies
                #[trigger] sums@[k]@[c] == prefix_sum(
                prepared.order_spec(),
                reaches@[c]@,
                k as nat,
            ) by {
                if k <= place {
                    assert(sums@[k] == was[k]);
                    assert(was[k]@[c] == prefix_sum(prepared.order_spec(), reaches@[c]@, k as nat));
                }
            }
        }
    }
    sums
}

/// The values of all hands against each of many reaches.
pub fn side_values_prefix_blocker_columns<S: Scalar>(
    prepared: &PreparedTerminalBoard,
    opponent_reaches: &Vec<Vec<S>>,
) -> (r: Vec<Vec<S>>)
    requires
        prepared.wf(),
        rows_have(opponent_reaches@, opponent_reaches@.len() as int, prepared.count() as int),
    ensures
        rows_of(r@) == column_values(*prepared, rows_of(opponent_reaches@)),
{
    proof {
        prepared.wf_facts();
    }
    let columns: usize = opponent_reaches.len();
    let n: usize = prepared.len();
    let ghost all = rows_of(opponent_reaches@);
    let sums: Vec<Vec<S>> = column_sums(prepared, opponent_reaches);
    let mut values: Vec<Vec<S>> = Vec::new();
    for column in 0..columns
        invariant
            values@.len() == column,
            forall|c: int| 0 <= c < column ==> (#[trigger] values@[c])@.len() == 0,
    {
        values.push(Vec::new());
    }
    for hero in 0..n
        invariant
            prepared.wf(),
            n == prepared.count(),
            columns == opponent_reaches@.len(),
            rows_have(opponent_reaches@, columns as int, n as int),
            rows_have(sums@, n + 1, columns as int),
            forall|k: int, c: int|
                0 <= k <= n && 0 <= c < columns ==> #[trigger] sums@[k]@[c] == prefix_sum(
                    prepared.order_spec(),
                    opponent_reaches@[c]@,
                    k as nat,
                ),
            values@.len() == columns,
            forall|c: int| 0 <= c < columns ==> (#[trigger] values@[c])@.len() == hero,
            forall|c: int, h: int|
                0 <= c < columns && 0 <= h < hero ==> #[trigger] values@[c]@[h] == prepared.side_value(
                    opponent_reaches@[c]@,
                    h,
                ),
    {
        proof {
            prepared.wf_facts();
            blockers_facts(prepared.combos_spec(), prepared.strengths_spec(), hero as int, -1);
            blockers_facts(prepared.combos_spec(), prepared.strengths_spec(), hero as int, 1);
        }
        let (lower, upper): (usize, usize) = prepared.bounds(hero);
        let weaker: &[u16] = prepared.weaker(hero);
        let stronger: &[u16] = prepared.stronger(hero);
        for column in 0..columns
            invariant
                prepared.wf(),
                n == prepared.count(),
                hero < n,
                prepared.order_spec().len() == n,
                lower == prepared.bounds_spec(hero as int).0,
                upper == prepared.bounds_spec(hero as int).1,
                lower <= n,
                upper <= n,
                weaker@ == prepared.weaker_spec(hero as int),
                stronger@ == prepared.stronger_spec(hero as int),
                forall|j: int| 0 <= j < weaker@.len() ==> (#[trigger] weaker@[j]) < n,
                forall|j: int| 0 <= j < stronger@.len() ==> (#[trigger] stronger@[j]) < n,
                columns == opponent_reaches@.len(),
                rows_have(opponent_reaches@, columns as int, n as int),
                rows_have(sums@, n + 1, columns as int),
                forall|k: int, c: int|
                    0 <= k <= n && 0 <= c < columns ==> #[trigger] sums@[k]@[c] == prefix_sum(
                        prepared.order_spec(),
                        opponent_reaches@[c]@,
                        k as nat,
                    ),
                values@.len() == columns,
                forall|c: int| 0 <= c < column ==> (#[trigger] values@[c])@.len() == hero + 1,
                forall|c: int| column <= c < columns ==> (#[trigger] values@[c])@.len() == hero,
                forall|c: int, h: int|
                    0 <= c < columns && 0 <= h < hero ==> #[trigger] values@[c]@[h]
                        == prepared.side_value(opponent_reaches@[c]@, h),
                forall|c: int|
                    0 <= c < column ==> #[trigger] values@[c]@[hero as int] == prepared.side_value(
                        opponent_reaches@[c]@,
                        hero as int,
                    ),
        {
            let ghost was = values@;
            proof {
                assert(opponent_reaches@[column as int]@.len() == n);
                assert(sums@[lower as int]@.len() == columns);
                assert(sums@[upper as int]@.len() == columns);
                assert(sums@[n as int]@.len() == columns);
            }
            let reach: &Vec<S> = &opponent_reaches[column];
            let start: S = sums[lower][column].minus(sums[n][column].minus(sums[upper][column]));
            let mut value: S = start;
            for i in 0..weaker.len()
                invariant
                    value == less_all(start, weaker@, reach@, i as nat),
                    forall|j: int| 0 <= j < weaker@.len() ==> (#[trigger] weaker@[j]) < reach@.len(),
            {
                value = value.minus(reach[weaker[i] as usize]);
            }
            let corrected: S = value;
            for i in 0..stronger.len()
                invariant
                    value == plus_all(corrected, stronger@, reach@, i as nat),
                    forall|j: int|
                        0 <= j < stronger@.len() ==> (#[trigger] stronger@[j]) < reach@.len(),
            {
                value = value.plus(reach[stronger[i] as usize]);
            }
            values[column].push(value);
            proof {
                assert forall|c: int, h: int| 0 <= c < columns && 0 <= h < hero implies
                    #[trigger] values@[c]@[h] == prepared.side_value(opponent_reaches@[c]@, h) by {
                    assert(was[c]@[h] == prepared.side_value(opponent_reaches@[c]@, h));
                }
            }
        }
    }
    proof {
        let goal = column_values(*prepared, all);
        assert forall|c: int| 0 <= c < columns implies rows_of(values@)[c] == goal[c] by {
            assert(all[c] == opponent_reaches@[c]@);
            assert(values@[c]@.len() == n);
            assert forall|h: int| 0 <= h < n implies values@[c]@[h] == goal[c][h] by {
                assert(values@[c]@[h] == prepared.side_value(opponent_reaches@[c]@, h));
            }
            assert(values@[c]@ =~= goal[c]);
        }
        assert(rows_of(values@) =~= goal);
    }
    values
}

/// The values of both players' hands against each of many reaches of the other.
pub fn terminal_cfv_prefix_blocker_columns<S: Scalar>(
    prepared: &PreparedTerminalBoard,
    hero_reaches: &Vec<Vec<S>>,
    villain_reaches: &Vec<Vec<S>>,
) -> (r: (Vec<Vec<S>>, Vec<Vec<S>>))
    requires
        prepared.wf(),
        rows_have(hero_reaches@, hero_reaches@.len() as int, prepared.count() as int),
        rows_have(villain_reaches@, villain_reaches@.len() as int, prepared.count() as int),
    ensures
        rows_of(r.0@) == column_values(*prepared, rows_of(villain_reaches@)),
        rows_of(r.1@) == column_values(*prepared, rows_of(hero_reaches@)),
{
    (
        side_values_prefix_blocker_columns(prepared, villain_reaches),
        side_values_prefix_blocker_columns(prepared, hero_reaches),
    )
}

/// A reach that climbs in steps and starts over.
pub open spec fn stepped_reach<S: Scalar>(combos: nat, offset: nat, period: nat, base: S, step: S) -> Seq<S> {
    Seq::new(
        combos,
        |i: int|
            base.plus_spec(
                S::from_count_spec(((i + offset) % (period as int)) as usize).times_spec(step),
            ),
    )
}

/// A reach that climbs in steps and starts over.
pub fn deterministic_reach<S: Scalar>(combos: usize, offset: usize, period: usize, base: S, step: S) -> (r: Vec<
    S,
>)
    requires
        period > 0,
        combos + offset <= usize::MAX,
    ensures
        r@ == stepped_reach(combos as nat, offset as nat, period as nat, base, step),
{
    let mut reach: Vec<S> = Vec::new();
    for index in 0..combos
        invariant
            period > 0,
            combos + offset <= usize::MAX,
            reach@ =~= stepped_reach(index as nat, offset as nat, period as nat, base, step),
    {
        reach.push(base.plus(S::from_count((index + offset) % period).times(step)));
    }
    reach
}

/// The parts of at most so many columns each.
pub open spec fn column_parts(columns: nat, width: nat, start: nat) -> Seq<(usize, usize)>
    decreases columns - start,
{
    if start >= columns || width == 0 {
        Seq::empty()
    } else {
        let end = if start + width < columns {
            start + width
        } else {
            columns
        };
        seq![(start as usize, end as usize)] + column_parts(columns, width, end)
    }
}

/// Parts cover every column once, in order.
pub proof fn column_parts_cover(columns: nat, width: nat, start: nat)
    requires
        width > 0,
        start <= columns <= usize::MAX,
    ensures
        ({
            let parts = column_parts(columns, width, start);
            &&& start < columns ==> parts.len() > 0 && parts[0].0 == start && parts.last().1 == columns
            &&& forall|k: int|
                0 <= k < parts.len() ==> (#[trigger] parts[k]).0 < parts[k].1 <= parts[k].0 + width
            &&& forall|k: int|
                0 <= k < parts.len() - 1 ==> (#[trigger] parts[k]).1 == parts[k + 1].0
        }),
    decreases columns - start,
{
    if start < columns {
        let end = if start + width < columns {
            start + width
        } else {
            columns
        };
        column_parts_cover(columns, width, end);
        let parts = column_parts(columns, width, start);
        let rest = column_parts(columns, width, end);
        assert(parts =~= seq![(start as usize, end as usize)] + rest);
        if end >= columns {
            assert(rest.len() == 0);
        }
        assert forall|k: int| 0 <= k < parts.len() implies (#[trigger] parts[k]).0 < parts[k].1
            <= parts[k].0 + width by {
            if k > 0 {
                assert(parts[k] == rest[k - 1]);
            }
        }
        assert forall|k: int| 0 <= k < parts.len() - 1 implies (#[trigger] parts[k]).1 == parts[k
            + 1].0 by {
            assert(parts[k + 1] == rest[k]);
            if k > 0 {
                assert(parts[k] == rest[k - 1]);
            }
        }
    }
}

/// The parts of at most so many columns each.
pub fn batch_ranges(columns: usize, batch_width: usize) -> (r: Vec<(usize, usize)>)
    requires
        batch_width > 0,
    ensures
        r@ == column_parts(columns as nat, batch_width as nat, 0),
{
    let mut parts: Vec<(usize, usize)> = Vec::new();
    let mut start: usize = 0;
    while start < columns
        invariant
            batch_width > 0,
            start <= columns,
            parts@ + column_parts(columns as nat, batch_width as nat, start as nat) =~= column_parts(
                columns as nat,
                batch_width as nat,
                0,
            ),
        decreases columns - start,
    {
        let end: usize = if batch_width < columns - start {
            start + batch_width
        } else {
            columns
        };
        parts.push((start, end));
        start = end;
    }
    parts
}

/// The reaches that a comparison of many columns uses: for each column, those of both players.
pub open spec fn trial_reaches<S: Scalar>(combos: nat, column: nat) -> (Seq<S>, Seq<S>) {
    (
        stepped_reach(
            combos,
            column * 11,
            17 + column % 7,
            ratio_spec(1, 4),
            ratio_spec::<S>(175, 10000).plus_spec(
                S::from_count_spec((column % 5) as usize).times_spec(ratio_spec(1, 1000)),
            ),
        ),
        stepped_reach(
            combos,
            7 + column * 13,
            23 + column % 11,
            ratio_spec(1, 2),
            ratio_spec::<S>(1125, 100000).plus_spec(
                S::from_count_spec((column % 3) as usize).times_spec(ratio_spec(1, 1000)),
            ),
        ),
    )
}

/// The reaches that a comparison of many columns uses.
pub fn trial_columns<S: Scalar>(combos: usize, columns: usize) -> (r: (Vec<Vec<S>>, Vec<Vec<S>>))
    requires
        combos + 7 + columns * 13 <= usize::MAX,
    ensures
        r.0@.len() == columns,
        r.1@.len() == columns,
        forall|c: int|
            0 <= c < columns ==> (#[trigger] r.0@[c])@ == trial_reaches::<S>(combos as nat, c as nat).0,
        forall|c: int|
            0 <= c < columns ==> (#[trigger] r.1@[c])@ == trial_reaches::<S>(combos as nat, c as nat).1,
{
    let mut heroes: Vec<Vec<S>> = Vec::new();
    let mut villains: Vec<Vec<S>> = Vec::new();
    for column in 0..columns
        invariant
            combos + 7 + columns * 13 <= usize::MAX,
            heroes@.len() == column,
            villains@.len() == column,
            forall|c: int|
                0 <= c < column ==> (#[trigger] heroes@[c])@ == trial_reaches::<S>(
                    combos as nat,
                    c as nat,
                ).0,
            forall|c: int|
                0 <= c < column ==> (#[trigger] villains@[c])@ == trial_reaches::<S>(
                    combos as nat,
                    c as nat,
                ).1,
    {
        heroes.push(
            deterministic_reach(
                combos,
                column * 11,
                17 + column % 7,
                ratio(1, 4),
                ratio::<S>(175, 10000).plus(S::from_count(column % 5).times(ratio(1, 1000))),
            ),
        );
        villains.push(
            deterministic_reach(
                combos,
                7 + column * 13,
                23 + column % 11,
                ratio(1, 2),
                ratio::<S>(1125, 100000).plus(S::from_count(column % 3).times(ratio(1, 1000))),
            ),
        );
    }
    (heroes, villains)
}

/// All finished boards of a flop, prepared.
#[derive(Clone, Debug)]
pub struct PreparedTerminalCfvSmoke {
    pub prepared: Vec<PreparedTerminalBoard>,
}

impl PreparedTerminalCfvSmoke {
    /// Prepares all finished boards that a flop can become.
    pub fn new(flop: &Board) -> (r: Result<Self, String>)
        requires
            flop.wf(),
        ensures
            match r {
                Ok(smoke) => {
                    &&& flop@.len() == 3
                    &&& smoke.prepared@.len() == completions(flop@).len()
                    &&& forall|k: int|
                        0 <= k < smoke.prepared@.len() ==> prepares(
                            #[trigger] &smoke.prepared@[k],
                            completions(flop@)[k],
                        )
                },
                Err(message) => flop@.len() != 3 && message@
                    == "terminal CFV smoke requires a three-card flop"@,
            },
    {
        if flop.len() != 3 {
            return Err("terminal CFV smoke requires a three-card flop".to_owned());
        }
        let boards: Vec<Board> = match terminal_boards(flop) {
            Ok(boards) => boards,
            Err(_) => Vec::new(),
        };
        let mut prepared: Vec<PreparedTerminalBoard> = Vec::new();
        for k in 0..boards.len()
            invariant
                flop@.len() == 3,
                boards_are(boards@, completions(flop@)),
                prepared@.len() == k,
                forall|m: int|
                    0 <= m < k ==> prepares(#[trigger] &prepared@[m], completions(flop@)[m]),
        {
            proof {
                assert(boards@[k as int].wf());
                assert(completions(flop@)[k as int].len() == 5);
            }
            match PreparedTerminalBoard::new(&boards[k]) {
                Ok(board) => {
                    prepared.push(board);
                },
                Err(_) => {
                    proof {
                        assert(false);
                    }
                },
            }
        }
        Ok(PreparedTerminalCfvSmoke { prepared })
    }

    /// How many boards were prepared.
    pub fn board_count(&self) -> (r: usize)
        ensures
            r == self.prepared@.len(),
    {
        self.prepared.len()
    }
}

/// The places of the first `n` boards, by their cards.
pub open spec fn places_by_mask(boards: Seq<Seq<Card>>, n: nat) -> Map<u64, usize>
    decreases n,
{
    if n == 0 {
        Map::empty()
    } else {
        places_by_mask(boards, (n - 1) as nat).insert(mask_of(boards[n - 1]), (n - 1) as usize)
    }
}

/// Whether a node ends in a comparison of hands.
pub open spec fn is_compared(node: PublicNode) -> bool {
    node.kind matches PublicNodeKind::Terminal { reason } && reason != TerminalReason::Fold
}

/// The places of the first `m` boards that a board can become, or nothing if one has none.
pub open spec fn places_found(places: Map<u64, usize>, boards: Seq<Seq<Card>>, m: nat) -> Option<Seq<usize>>
    decreases m,
{
    if m == 0 {
        Some(Seq::empty())
    } else {
        match places_found(places, boards, (m - 1) as nat) {
            Some(list) => if places.contains_key(mask_of(boards[m - 1])) {
                Some(list.push(places[mask_of(boards[m - 1])]))
            } else {
                None
            },
            None => None,
        }
    }
}

/// The places of the finished boards on which the first `n` nodes are compared; or what is wrong with
/// the first node that has a board without a place.
pub open spec fn tree_places(nodes: Seq<PublicNode>, places: Map<u64, usize>, n: nat) -> Result<
    Seq<usize>,
    Seq<char>,
>
    decreases n,
{
    if n == 0 {
        Ok(Seq::empty())
    } else {
        match tree_places(nodes, places, (n - 1) as nat) {
            Ok(list) => {
                let board = nodes[n - 1].state.board@;
                let boards = completions(board);
                if !is_compared(nodes[n - 1]) {
                    Ok(list)
                } else if board.len() < 3 {
                    Err(
                        around_spec(
                            "terminal CFV requires a flop, turn, or river board, got "@,
                            board.len(),
                            " cards"@,
                        ),
                    )
                } else {
                    match places_found(places, boards, boards.len()) {
                        Some(more) => Ok(list + more),
                        None => Err("terminal board is outside the flop river board cache"@),
                    }
                }
            },
            Err(message) => Err(message),
        }
    }
}

proof fn lemma_places_lost(places: Map<u64, usize>, boards: Seq<Seq<Card>>, m: nat, n: nat)
    requires
        m <= n,
        places_found(places, boards, m) is None,
    ensures
        places_found(places, boards, n) is None,
    decreases n,
{
    if m < n {
        lemma_places_lost(places, boards, m, (n - 1) as nat);
    }
}

proof fn lemma_tree_stops(nodes: Seq<PublicNode>, places: Map<u64, usize>, m: nat, n: nat)
    requires
        m <= n,
        tree_places(nodes, places, m) is Err,
    ensures
        tree_places(nodes, places, n) == tree_places(nodes, places, m),
    decreases n,
{
    if m < n {
        lemma_tree_stops(nodes, places, m, (n - 1) as nat);
    }
}

/// The cards of boards with each pair of cards to come.
pub open spec fn paired_boards(flop: Seq<Card>) -> Seq<Seq<Card>> {
    let deck = deck_without(flop);
    Seq::new(
        pairs(deck.len()).len(),
        |k: int|
            flop.push(deck[pairs(deck.len())[k].0 as int]).push(
                deck[pairs(deck.len())[k].1 as int],
            ),
    )
}

/// The places, among the finished boards of a flop, of all boards on which a tree's nodes are compared.
pub fn terminal_board_indices(tree: &PublicTree) -> (r: Result<Vec<usize>, String>)
    requires
        tree.spot.board.wf(),
        forall|i: int| 0 <= i < tree.nodes@.len() ==> (#[trigger] tree.nodes@[i]).state.board.wf(),
    ensures
        ({
            let flop = tree.spot.board@;
            let boards = paired_boards(flop);
            let found = tree_places(
                tree.nodes@,
                places_by_mask(boards, boards.len()),
                tree.nodes@.len(),
            );
            match r {
                Ok(list) => flop.len() <= 3 && found == Ok::<Seq<usize>, Seq<char>>(list@),
                Err(message) => if flop.len() > 3 {
                    message@ == "board is full"@
                } else {
                    found == Err::<Seq<usize>, Seq<char>>(message@)
                },
            }
        }),
{
    let boards: Vec<Board> = match river_boards_from_flop(&tree.spot.board) {
        Ok(boards) => boards,
        Err(message) => return Err(message),
    };
    let ghost cards = paired_boards(tree.spot.board@);
    let mut index: KeyMap<usize> = KeyMap::new();
    for k in 0..boards.len()
        invariant
            boards@.len() == cards.len(),
            forall|m: int|
                0 <= m < boards@.len() ==> (#[trigger] boards@[m]).wf() && boards@[m]@ == cards[m],
            index@ == places_by_mask(cards, k as nat),
    {
        proof {
            assert(boards@[k as int].wf());
        }
        index.insert(board_key(&boards[k]), k);
    }
    let ghost places = index@;
    let mut list: Vec<usize> = Vec::new();
    for i in 0..tree.nodes.len()
        invariant
            tree.spot.board@.len() <= 3,
            cards == paired_boards(tree.spot.board@),
            forall|k: int|
                0 <= k < tree.nodes@.len() ==> (#[trigger] tree.nodes@[k]).state.board.wf(),
            places == index@,
            places == places_by_mask(cards, cards.len()),
            tree_places(tree.nodes@, places, i as nat) == Ok::<Seq<usize>, Seq<char>>(list@),
    {
        let node: &PublicNode = &tree.nodes[i];
        proof {
            assert(tree.nodes@[i as int].state.board.wf());
        }
        let compared: bool = match &node.kind {
            PublicNodeKind::Terminal { reason } => *reason != TerminalReason::Fold,
            _ => false,
        };
        if compared {
            let finished: Vec<Board> = match terminal_boards(&node.state.board) {
                Ok(finished) => finished,
                Err(message) => {
                    proof {
                        lemma_tree_stops(
                            tree.nodes@,
                            places,
                            (i + 1) as nat,
                            tree.nodes@.len(),
                        );
                    }
                    return Err(message);
                },
            };
            let ghost front = list@;
            let ghost all = completions(node.state.board@);
            for m in 0..finished.len()
                invariant
                    tree.spot.board@.len() <= 3,
                    cards == paired_boards(tree.spot.board@),
                    i < tree.nodes@.len(),
                    *node == tree.nodes@[i as int],
                    is_compared(*node),
                    node.state.board@.len() >= 3,
                    all == completions(node.state.board@),
                    boards_are(finished@, all),
                    places == index@,
                    places == places_by_mask(cards, cards.len()),
                    tree_places(tree.nodes@, places, i as nat) == Ok::<Seq<usize>, Seq<char>>(front),
                    places_found(places, all, m as nat) is Some,
                    list@ == front + places_found(places, all, m as nat)->Some_0,
            {
                proof {
                    assert(finished@[m as int].wf());
                }
                match index.get(board_key(&finished[m])) {
                    Some(place) => {
                        list.push(*place);
                        proof {
                            assert(list@ =~= front + places_found(
                                places,
                                all,
                                (m + 1) as nat,
                            )->Some_0);
                        }
                    },
                    None => {
                        proof {
                            lemma_places_lost(places, all, (m + 1) as nat, all.len());
                            lemma_tree_stops(
                                tree.nodes@,
                                places,
                                (i + 1) as nat,
                                tree.nodes@.len(),
                            );
                        }
                        return Err("terminal board is outside the flop river board cache".to_owned());
                    },
                }
            }
        }
    }
    Ok(list)
}

} // verus!
