//! The values of finished hands to a solver: of folds by what a hand can be up against, of showdowns over
//! all boards to come.
use vstd::prelude::*;
use crate::arith::{bounded, bounded_sum, greater, max_usize};
use crate::boards::{
    board_class_facts, board_classes, classes_are, is_symmetry_code, terminal_board_isomorphism,
    BoardClassView, TerminalBoardClass,
};
use crate::cards::{mask_of, Board, Card};
use crate::cfr_math::{zeros, zeros_spec};
use crate::fold_weights::{opponent_weights_for_fast, total_weights};
use crate::isomorphism::{is_symmetry, SuitPermutation};
use crate::real_setup::RealSetup;
use crate::scalar::Scalar;
use crate::side_cache::{
    side_key, terminal_side_cached_values, SideAsked, TerminalSideValueCache,
};
use crate::terminal_cache::{
    are_indices, code_finds_permutation, code_keeps, code_mapped, compact_values, finished, live_places,
    live_reach, maps_into, members_gathered, no_sums, reach_on_prepared_board_targets_sparse,
    terminal_side_values, LiveReach, SideAccumulator, SideSums, TerminalCacheRef, TerminalEvalCache,
};
use crate::tree::Player;

verus! {

/// The values of a state to the hands of both players, and how many boards were evaluated for them.
#[derive(Clone, Debug)]
pub struct Values<S> {
    pub oop: Vec<S>,
    pub ip: Vec<S>,
    pub terminal_evals: usize,
}

/// The values of a state.
pub ghost struct ValuesView<S> {
    pub oop: Seq<S>,
    pub ip: Seq<S>,
    pub terminal_evals: usize,
}

impl<S> View for Values<S> {
    type V = ValuesView<S>;

    open spec fn view(&self) -> ValuesView<S> {
        ValuesView { oop: self.oop@, ip: self.ip@, terminal_evals: self.terminal_evals }
    }
}

impl<S> ValuesView<S> {
    /// The values to a player.
    pub open spec fn side(self, player: Player) -> Seq<S> {
        match player {
            Player::Oop => self.oop,
            Player::Ip => self.ip,
        }
    }

    /// Whether there is a value for each hand.
    pub open spec fn sized(self, oop: nat, ip: nat) -> bool {
        self.oop.len() == oop && self.ip.len() == ip
    }
}

impl<S: Scalar> ValuesView<S> {
    /// Values of zero.
    pub open spec fn zero(oop: nat, ip: nat) -> Self {
        ValuesView { oop: zeros_spec(oop), ip: zeros_spec(ip), terminal_evals: 0 }
    }
}

impl<S: Scalar> Values<S> {
    /// Values of zero.
    pub fn zero(oop: usize, ip: usize) -> (r: Self)
        ensures
            r@ == ValuesView::<S>::zero(oop as nat, ip as nat),
    {
        Values { oop: zeros(oop), ip: zeros(ip), terminal_evals: 0 }
    }

    /// A copy of the values.
    pub fn copied(&self) -> (r: Self)
        ensures
            r@ == self@,
    {
        Values {
            oop: crate::cfr_math::copy_of(&self.oop),
            ip: crate::cfr_math::copy_of(&self.ip),
            terminal_evals: self.terminal_evals,
        }
    }
}

/// How finished hands are evaluated: on the way through a tree, or for a list of states with or without
/// a cache. For a list, boards that no hand reaches are only counted, and with a cache the values
/// against hands that do not occur are taken to be zero.
#[derive(Clone, Copy, Debug, PartialEq, Eq, Structural)]
pub enum TerminalMode {
    Traverse,
    PhaseCached,
    PhaseDirect,
}

/// What was done for a list of states.
#[derive(Clone, Copy, Debug, PartialEq, Eq)]
pub struct TerminalWorkerProfile {
    pub worker_index: usize,
    pub tasks: usize,
    pub terminal_states: usize,
    pub fold_states: usize,
    pub sparse_tasks: usize,
    pub prefix_tasks: usize,
    pub zero_reach_tasks: usize,
    pub side_cache_hits: usize,
    pub side_cache_misses: usize,
    pub oop_nonzero_sum: usize,
    pub ip_nonzero_sum: usize,
    pub oop_nonzero_max: usize,
    pub ip_nonzero_max: usize,
    pub output_states: usize,
}

impl TerminalWorkerProfile {
    /// Nothing was done.
    pub open spec fn none_spec() -> Self {
        TerminalWorkerProfile {
            worker_index: 0,
            tasks: 0,
            terminal_states: 0,
            fold_states: 0,
            sparse_tasks: 0,
            prefix_tasks: 0,
            zero_reach_tasks: 0,
            side_cache_hits: 0,
            side_cache_misses: 0,
            oop_nonzero_sum: 0,
            ip_nonzero_sum: 0,
            oop_nonzero_max: 0,
            ip_nonzero_max: 0,
            output_states: 0,
        }
    }

    /// Nothing was done.
    pub fn none() -> (r: Self)
        ensures
            r == Self::none_spec(),
    {
        TerminalWorkerProfile {
            worker_index: 0,
            tasks: 0,
            terminal_states: 0,
            fold_states: 0,
            sparse_tasks: 0,
            prefix_tasks: 0,
            zero_reach_tasks: 0,
            side_cache_hits: 0,
            side_cache_misses: 0,
            oop_nonzero_sum: 0,
            ip_nonzero_sum: 0,
            oop_nonzero_max: 0,
            ip_nonzero_max: 0,
            output_states: 0,
        }
    }

    /// One more board was evaluated, with so many hands of either player on it.
    pub open spec fn with_task(self, oop: nat, ip: nat, limit: usize, mode: TerminalMode) -> Self {
        let nothing = oop == 0 && ip == 0;
        let cached = mode == TerminalMode::PhaseCached;
        TerminalWorkerProfile {
            tasks: bounded(self.tasks + 1) as usize,
            oop_nonzero_sum: bounded(self.oop_nonzero_sum + oop) as usize,
            ip_nonzero_sum: bounded(self.ip_nonzero_sum + ip) as usize,
            oop_nonzero_max: greater(self.oop_nonzero_max as int, oop as int) as usize,
            ip_nonzero_max: greater(self.ip_nonzero_max as int, ip as int) as usize,
            zero_reach_tasks: if nothing || (cached && (oop == 0 || ip == 0)) {
                bounded(self.zero_reach_tasks + 1) as usize
            } else {
                self.zero_reach_tasks
            },
            sparse_tasks: if !nothing && !cached && oop <= limit && ip <= limit {
                bounded(self.sparse_tasks + 1) as usize
            } else {
                self.sparse_tasks
            },
            prefix_tasks: if !nothing && !cached && !(oop <= limit && ip <= limit) {
                bounded(self.prefix_tasks + 1) as usize
            } else {
                self.prefix_tasks
            },
            ..self
        }
    }

    /// Counts one more board.
    pub fn add_task(&mut self, oop: usize, ip: usize, limit: usize, mode: TerminalMode)
        ensures
            *final(self) == old(self).with_task(oop as nat, ip as nat, limit, mode),
    {
        let nothing: bool = oop == 0 && ip == 0;
        let cached: bool = mode == TerminalMode::PhaseCached;
        self.tasks = bounded_sum(self.tasks, 1);
        self.oop_nonzero_sum = bounded_sum(self.oop_nonzero_sum, oop);
        self.ip_nonzero_sum = bounded_sum(self.ip_nonzero_sum, ip);
        self.oop_nonzero_max = max_usize(self.oop_nonzero_max, oop);
        self.ip_nonzero_max = max_usize(self.ip_nonzero_max, ip);
        if nothing || (cached && (oop == 0 || ip == 0)) {
            self.zero_reach_tasks = bounded_sum(self.zero_reach_tasks, 1);
        }
        if !nothing && !cached {
            if oop <= limit && ip <= limit {
                self.sparse_tasks = bounded_sum(self.sparse_tasks, 1);
            } else {
                self.prefix_tasks = bounded_sum(self.prefix_tasks, 1);
            }
        }
    }
}

/// A class of finished boards.
pub ghost struct RefView {
    pub cache_index: int,
    pub codes: Seq<u8>,
}

/// What classes hold.
pub open spec fn ref_views(refs: Seq<TerminalCacheRef>) -> Seq<RefView> {
    refs.map(
        |k: int, class: TerminalCacheRef|
            RefView {
                cache_index: class.cache_index as int,
                codes: class.member_permutation_codes@,
            },
    )
}

/// A player's reach on a prepared board.
pub open spec fn live_on<S: Scalar>(cache: TerminalEvalCache, player: Player, reach: Seq<S>) -> Seq<S> {
    live_reach(cache.targets(player), reach, cache.prepared.count(), cache.targets(player).len())
}

/// The places of a player's hands on a prepared board.
pub open spec fn places_on<S: Scalar>(cache: TerminalEvalCache, player: Player, reach: Seq<S>) -> Seq<u16> {
    live_places(cache.targets(player), reach, cache.prepared.count(), cache.targets(player).len())
}

/// What the cache was asked for after a player's values on a prepared board were taken: for a list without
/// a cache nothing, and with one nothing against hands that do not occur.
pub open spec fn asked_on<S: Scalar>(
    asked: SideAsked,
    mode: TerminalMode,
    cache_index: int,
    player: Player,
    reach: Seq<S>,
    places: Seq<u16>,
) -> SideAsked {
    if mode == TerminalMode::PhaseDirect || (mode == TerminalMode::PhaseCached && places.len() == 0) {
        asked
    } else {
        asked.with(side_key(cache_index, player, reach, places))
    }
}

/// A player's values on a prepared board; `None` if the board is only counted.
pub open spec fn board_values<S: Scalar>(
    cache: TerminalEvalCache,
    player: Player,
    oop_reach: Seq<S>,
    ip_reach: Seq<S>,
    limit: usize,
    mode: TerminalMode,
) -> Option<Seq<S>> {
    let oop = places_on(cache, Player::Oop, oop_reach);
    let ip = places_on(cache, Player::Ip, ip_reach);
    let (opponent, places, live) = match player {
        Player::Oop => (Player::Ip, ip, live_on(cache, Player::Ip, ip_reach)),
        Player::Ip => (Player::Oop, oop, live_on(cache, Player::Oop, oop_reach)),
    };
    if mode != TerminalMode::Traverse && oop.len() == 0 && ip.len() == 0 {
        None
    } else if mode == TerminalMode::PhaseCached && places.len() == 0 {
        Some(zeros_spec(cache.indices(player).len()))
    } else {
        Some(
            compact_values(
                cache.prepared,
                cache.indices(player),
                live,
                places,
                oop.len() <= limit && ip.len() <= limit,
            ),
        )
    }
}

/// How many boards the first `n` classes hold.
pub open spec fn refs_evals(refs: Seq<RefView>, n: nat) -> usize
    decreases n,
{
    if n == 0 {
        0
    } else {
        bounded(refs_evals(refs, (n - 1) as nat) + refs[n - 1].codes.len()) as usize
    }
}

impl<S: Scalar> RealSetup<S> {
    /// The classes of the finished boards that a board can become.
    pub open spec fn refs(self, board: Seq<Card>) -> Seq<RefView> {
        board_classes(board, self.oop(), self.ip()).map(
            |i: int, class: BoardClassView|
                RefView {
                    cache_index: self.terminal_cache_index_by_key@[mask_of(class.board)] as int,
                    codes: class.codes,
                },
        )
    }

    /// Whether classes have prepared boards, and their permutations keep both ranges.
    pub open spec fn holds_refs(self, refs: Seq<RefView>) -> bool {
        forall|k: int|
            0 <= k < refs.len() ==> {
                let class = #[trigger] refs[k];
                &&& 0 <= class.cache_index < self.terminal_cache@.len()
                &&& forall|m: int|
                    0 <= m < class.codes.len() ==> self.maps_code(#[trigger] class.codes[m])
            }
    }

    /// Whether a permutation keeps both ranges.
    pub open spec fn maps_code(self, code: u8) -> bool {
        &&& self.combo_permutations.maps@[code as int] is Some
        &&& maps_into(self.combo_permutations.map_of(Player::Oop, code), self.oop().len())
        &&& maps_into(self.combo_permutations.map_of(Player::Ip, code), self.ip().len())
    }

    /// The code of a symmetry has maps.
    pub proof fn symmetry_is_mapped(self, board: Seq<Card>, permutation: SuitPermutation)
        requires
            self.wf(),
            permutation.wf(),
            is_symmetry(board, self.oop(), self.ip(), permutation),
        ensures
            permutation.code_spec() < 256,
            self.maps_code(permutation.code_spec() as u8),
    {
        code_finds_permutation(permutation);
        let code = permutation.code_spec() as int;
        assert(code_mapped(self.oop(), self.ip(), self.combo_permutations.maps@[code], code));
        assert(code_keeps(self.oop(), self.ip(), code));
    }

    /// The classes of a known board are held.
    pub proof fn known_refs_are_held(self, board: Board)
        requires
            self.wf(),
            board.wf(),
            self.knows(board@),
        ensures
            self.holds_refs(self.refs(board@)),
            forall|k: int|
                0 <= k < board_classes(board@, self.oop(), self.ip()).len()
                    ==> self.terminal_cache_index_by_key@.contains_key(
                    mask_of((#[trigger] board_classes(board@, self.oop(), self.ip())[k]).board),
                ),
    {
        let (oop, ip) = (self.oop(), self.ip());
        self.knows_starts_with_flop(board@);
        board_class_facts(board, oop, ip);
        let classes = board_classes(board@, oop, ip);
        let refs = self.refs(board@);
        assert forall|k: int| 0 <= k < refs.len() implies {
            let class = #[trigger] refs[k];
            &&& 0 <= class.cache_index < self.terminal_cache@.len()
            &&& self.terminal_cache_index_by_key@.contains_key(mask_of(classes[k].board))
            &&& forall|m: int| 0 <= m < class.codes.len() ==> self.maps_code(#[trigger] class.codes[m])
        } by {
            let class = classes[k];
            assert(class.board.take(3) =~= board@.take(3)) by {
                assert forall|i: int| 0 <= i < 3 implies class.board[i] == board@[i] by {}
            }
            self.finished_is_cached(class.board);
            assert(refs[k].codes == class.codes);
            assert forall|m: int| 0 <= m < class.codes.len() implies self.maps_code(
                #[trigger] class.codes[m],
            ) by {
                assert(is_symmetry_code(board@, oop, ip, class.codes[m]));
                let permutation = choose|permutation: SuitPermutation|
                    permutation.wf() && #[trigger] is_symmetry(board@, oop, ip, permutation)
                        && class.codes[m] == permutation.code_spec();
                self.symmetry_is_mapped(board@, permutation);
            }
        }
        assert forall|k: int| 0 <= k < classes.len() implies self.terminal_cache_index_by_key@.contains_key(
            mask_of((#[trigger] classes[k]).board),
        ) by {
            assert(0 <= refs[k].cache_index);
        }
    }

    /// The classes of the finished boards that a known board can become.
    pub fn terminal_cache_refs(&self, board: &Board) -> (r: Vec<TerminalCacheRef>)
        requires
            self.wf(),
            board.wf(),
            self.knows(board@),
        ensures
            ref_views(r@) == self.refs(board@),
            self.holds_refs(self.refs(board@)),
    {
        proof {
            self.knows_starts_with_flop(board@);
            self.known_refs_are_held(*board);
        }
        let classes: Vec<TerminalBoardClass> = terminal_board_isomorphism(
            board,
            &self.oop_range,
            &self.ip_range,
        );
        let ghost views = board_classes(board@, self.oop(), self.ip());
        let mut refs: Vec<TerminalCacheRef> = Vec::new();
        for k in 0..classes.len()
            invariant
                classes_are(classes@, views),
                views == board_classes(board@, self.oop(), self.ip()),
                forall|m: int|
                    0 <= m < views.len() ==> self.terminal_cache_index_by_key@.contains_key(
                        mask_of((#[trigger] views[m]).board),
                    ),
                refs@.len() == k,
                forall|m: int|
                    0 <= m < k ==> (#[trigger] refs@[m]).cache_index == self.refs(board@)[m].cache_index
                        && refs@[m].member_permutation_codes@ == self.refs(board@)[m].codes,
        {
            let ghost was = refs@;
            proof {
                assert(classes@[k as int].representative_board.wf());
                assert(views[k as int].board == classes@[k as int].representative_board@);
            }
            let cache_index: usize = match self.terminal_cache_index(&classes[k].representative_board) {
                Ok(index) => index,
                Err(_) => 0,
            };
            let codes: &Vec<u8> = &classes[k].member_permutation_codes;
            let mut list: Vec<u8> = Vec::new();
            for m in 0..codes.len()
                invariant
                    list@ =~= codes@.take(m as int),
            {
                list.push(codes[m]);
            }
            proof {
                assert(codes@.take(codes@.len() as int) =~= codes@);
            }
            refs.push(TerminalCacheRef { cache_index, member_permutation_codes: list });
            proof {
                assert forall|m: int| 0 <= m < k + 1 implies (#[trigger] refs@[m]).cache_index
                    == self.refs(board@)[m].cache_index && refs@[m].member_permutation_codes@
                    == self.refs(board@)[m].codes by {
                    if m < k {
                        assert(refs@[m] == was[m]);
                    }
                }
            }
        }
        proof {
            assert(ref_views(refs@) =~= self.refs(board@));
        }
        refs
    }

    /// The values to a player of a hand in which a player folded.
    pub open spec fn fold_side(
        self,
        player: Player,
        board: Seq<Card>,
        pot: u32,
        folding: Player,
        oop_reach: Seq<S>,
        ip_reach: Seq<S>,
    ) -> Seq<S> {
        let chips = S::from_u32_spec(pot);
        let factor = if folding == player {
            chips.negate_spec()
        } else {
            chips
        };
        let weights = match player {
            Player::Oop => total_weights(
                self.oop(),
                self.ip(),
                ip_reach,
                self.oop_same_ip_combo_indices@,
                board,
            ),
            Player::Ip => total_weights(
                self.ip(),
                self.oop(),
                oop_reach,
                self.ip_same_oop_combo_indices@,
                board,
            ),
        };
        Seq::new(weights.len(), |i: int| factor.times_spec(weights[i]))
    }

    /// The values of a hand in which a player folded.
    pub open spec fn fold_spec(
        self,
        board: Seq<Card>,
        pot: u32,
        folding: Player,
        oop_reach: Seq<S>,
        ip_reach: Seq<S>,
    ) -> ValuesView<S> {
        ValuesView {
            oop: self.fold_side(Player::Oop, board, pot, folding, oop_reach, ip_reach),
            ip: self.fold_side(Player::Ip, board, pot, folding, oop_reach, ip_reach),
            terminal_evals: 0,
        }
    }

    /// The values of a hand in which a player folded.
    pub fn fold_values(
        &self,
        board: &Board,
        pot: u32,
        folding: Player,
        oop_reach: &Vec<S>,
        ip_reach: &Vec<S>,
    ) -> (r: Values<S>)
        requires
            self.wf(),
            board.wf(),
            oop_reach@.len() == self.oop().len(),
            ip_reach@.len() == self.ip().len(),
        ensures
            r@ == self.fold_spec(board@, pot, folding, oop_reach@, ip_reach@),
            r@.sized(self.oop().len(), self.ip().len()),
    {
        let oop_weights: Vec<S> = opponent_weights_for_fast(
            self.oop_range.combos(),
            self.ip_range.combos(),
            ip_reach,
            &self.oop_same_ip_combo_indices,
            board,
        );
        let ip_weights: Vec<S> = opponent_weights_for_fast(
            self.ip_range.combos(),
            self.oop_range.combos(),
            oop_reach,
            &self.ip_same_oop_combo_indices,
            board,
        );
        let oop: Vec<S> = scaled(&oop_weights, folding_factor(pot, folding == Player::Oop));
        let ip: Vec<S> = scaled(&ip_weights, folding_factor(pot, folding == Player::Ip));
        proof {
            assert(oop@ =~= self.fold_side(
                Player::Oop,
                board@,
                pot,
                folding,
                oop_reach@,
                ip_reach@,
            ));
            assert(ip@ =~= self.fold_side(Player::Ip, board@, pot, folding, oop_reach@, ip_reach@));
        }
        Values { oop, ip, terminal_evals: 0 }
    }

    /// The sums of a player's values over the first `n` classes.
    pub open spec fn refs_gathered(
        self,
        player: Player,
        refs: Seq<RefView>,
        oop_reach: Seq<S>,
        ip_reach: Seq<S>,
        pot: u32,
        limit: usize,
        mode: TerminalMode,
        n: nat,
    ) -> SideSums<S>
        decreases n,
    {
        if n == 0 {
            no_sums(self.combos(player))
        } else {
            let class = refs[n - 1];
            let cache = self.terminal_cache@[class.cache_index];
            members_gathered(
                self.refs_gathered(
                    player,
                    refs,
                    oop_reach,
                    ip_reach,
                    pot,
                    limit,
                    mode,
                    (n - 1) as nat,
                ),
                board_values(cache, player, oop_reach, ip_reach, limit, mode),
                cache.indices(player),
                self.combo_permutations,
                player,
                class.codes,
                S::from_u32_spec(pot),
                class.codes.len(),
            )
        }
    }

    /// The values of a showdown over classes of finished boards.
    pub open spec fn showdown_spec(
        self,
        refs: Seq<RefView>,
        oop_reach: Seq<S>,
        ip_reach: Seq<S>,
        pot: u32,
        limit: usize,
        mode: TerminalMode,
    ) -> ValuesView<S> {
        ValuesView {
            oop: finished(
                self.refs_gathered(
                    Player::Oop,
                    refs,
                    oop_reach,
                    ip_reach,
                    pot,
                    limit,
                    mode,
                    refs.len(),
                ),
            ),
            ip: finished(
                self.refs_gathered(
                    Player::Ip,
                    refs,
                    oop_reach,
                    ip_reach,
                    pot,
                    limit,
                    mode,
                    refs.len(),
                ),
            ),
            terminal_evals: refs_evals(refs, refs.len()),
        }
    }

    /// What was done for the first `n` classes.
    pub open spec fn refs_profiled(
        self,
        start: TerminalWorkerProfile,
        refs: Seq<RefView>,
        oop_reach: Seq<S>,
        ip_reach: Seq<S>,
        limit: usize,
        mode: TerminalMode,
        n: nat,
    ) -> TerminalWorkerProfile
        decreases n,
    {
        if n == 0 {
            start
        } else {
            let cache = self.terminal_cache@[refs[n - 1].cache_index];
            self.refs_profiled(
                start,
                refs,
                oop_reach,
                ip_reach,
                limit,
                mode,
                (n - 1) as nat,
            ).with_task(
                places_on(cache, Player::Oop, oop_reach).len(),
                places_on(cache, Player::Ip, ip_reach).len(),
                limit,
                mode,
            )
        }
    }

    /// What the cache was asked for after the first `n` classes.
    pub open spec fn refs_asked(
        self,
        start: SideAsked,
        refs: Seq<RefView>,
        oop_reach: Seq<S>,
        ip_reach: Seq<S>,
        mode: TerminalMode,
        n: nat,
    ) -> SideAsked
        decreases n,
    {
        if n == 0 {
            start
        } else {
            let front = self.refs_asked(start, refs, oop_reach, ip_reach, mode, (n - 1) as nat);
            let index = refs[n - 1].cache_index;
            let cache = self.terminal_cache@[index];
            asked_on(
                asked_on(
                    front,
                    mode,
                    index,
                    Player::Oop,
                    live_on(cache, Player::Ip, ip_reach),
                    places_on(cache, Player::Ip, ip_reach),
                ),
                mode,
                index,
                Player::Ip,
                live_on(cache, Player::Oop, oop_reach),
                places_on(cache, Player::Oop, oop_reach),
            )
        }
    }

    pub(crate) proof fn lemma_misses(
        self,
        start: SideAsked,
        refs: Seq<RefView>,
        oop_reach: Seq<S>,
        ip_reach: Seq<S>,
        mode: TerminalMode,
        n: nat,
    )
        requires
            start.misses == bounded(start.keys.len() as int),
        ensures
            self.refs_asked(start, refs, oop_reach, ip_reach, mode, n).misses == bounded(
                self.refs_asked(start, refs, oop_reach, ip_reach, mode, n).keys.len() as int,
            ),
        decreases n,
    {
        if n > 0 {
            self.lemma_misses(start, refs, oop_reach, ip_reach, mode, (n - 1) as nat);
        }
    }

    /// A player's values on a prepared board.
    fn side_on_board(
        &self,
        cache_index: usize,
        player: Player,
        opponent: &LiveReach<S>,
        sparse: bool,
        mode: TerminalMode,
        side_cache: &mut TerminalSideValueCache<S>,
    ) -> (r: Vec<S>)
        requires
            self.wf(),
            cache_index < self.terminal_cache@.len(),
            opponent.values@.len() == self.terminal_cache@[cache_index as int].prepared.count(),
            forall|k: int|
                0 <= k < opponent.nonzero@.len() ==> #[trigger] opponent.nonzero@[k]
                    < opponent.values@.len(),
            old(side_cache).holds(self.terminal_cache@),
        ensures
            final(side_cache).holds(self.terminal_cache@),
            final(side_cache).asked() == asked_on(
                old(side_cache).asked(),
                mode,
                cache_index as int,
                player,
                opponent.values@,
                opponent.nonzero@,
            ),
            r@.len() == self.combos(player),
            r@ == (if mode == TerminalMode::PhaseCached && opponent.nonzero@.len() == 0 {
                zeros_spec(self.terminal_cache@[cache_index as int].indices(player).len())
            } else {
                compact_values(
                    self.terminal_cache@[cache_index as int].prepared,
                    self.terminal_cache@[cache_index as int].indices(player),
                    opponent.values@,
                    opponent.nonzero@,
                    sparse,
                )
            }),
    {
        let cache: &TerminalEvalCache = &self.terminal_cache[cache_index];
        proof {
            assert(self.terminal_cache@[cache_index as int].fits(self.oop(), self.ip()));
            self.lemma_indices(cache_index as int, player);
        }
        if mode == TerminalMode::PhaseCached && opponent.nonzero.len() == 0 {
            let count: usize = match player {
                Player::Oop => cache.oop_combo_indices.len(),
                Player::Ip => cache.ip_combo_indices.len(),
            };
            return zeros(count);
        }
        if mode == TerminalMode::PhaseDirect {
            return match player {
                Player::Oop => terminal_side_values(
                    &cache.prepared,
                    &cache.oop_combo_indices,
                    &opponent.values,
                    &opponent.nonzero,
                    sparse,
                ),
                Player::Ip => terminal_side_values(
                    &cache.prepared,
                    &cache.ip_combo_indices,
                    &opponent.values,
                    &opponent.nonzero,
                    sparse,
                ),
            };
        }
        terminal_side_cached_values(
            side_cache,
            &self.terminal_cache,
            cache_index,
            player,
            opponent,
            sparse,
        )
    }

    proof fn lemma_indices(self, cache_index: int, player: Player)
        requires
            self.wf(),
            0 <= cache_index < self.terminal_cache@.len(),
        ensures
            self.terminal_cache@[cache_index].indices(player).len() == self.combos(player),
            forall|i: int|
                0 <= i < self.terminal_cache@[cache_index].indices(player).len() ==> (
                #[trigger] self.terminal_cache@[cache_index].indices(player)[i] matches Some(b) ==> b
                    < self.terminal_cache@[cache_index].prepared.count()),
            player == Player::Oop ==> forall|i: int|
                0 <= i < self.terminal_cache@[cache_index].oop_combo_indices@.len() ==> (
                #[trigger] self.terminal_cache@[cache_index].oop_combo_indices@[i] matches Some(b) ==> b
                    < self.terminal_cache@[cache_index].prepared.count()),
            player == Player::Ip ==> forall|i: int|
                0 <= i < self.terminal_cache@[cache_index].ip_combo_indices@.len() ==> (
                #[trigger] self.terminal_cache@[cache_index].ip_combo_indices@[i] matches Some(b) ==> b
                    < self.terminal_cache@[cache_index].prepared.count()),
    {
        let cache = self.terminal_cache@[cache_index];
        assert(cache.fits(self.oop(), self.ip()));
        match player {
            Player::Oop => {
                assert(are_indices(cache.prepared, self.oop(), cache.oop_combo_indices@));
            },
            Player::Ip => {
                assert(are_indices(cache.prepared, self.ip(), cache.ip_combo_indices@));
            },
        }
    }

    /// The values of a showdown over classes of finished boards.
    pub fn showdown_values(
        &self,
        refs: &Vec<TerminalCacheRef>,
        oop_reach: &Vec<S>,
        ip_reach: &Vec<S>,
        pot: u32,
        limit: usize,
        mode: TerminalMode,
        side_cache: &mut TerminalSideValueCache<S>,
        profile: &mut TerminalWorkerProfile,
    ) -> (r: Values<S>)
        requires
            self.wf(),
            self.holds_refs(ref_views(refs@)),
            oop_reach@.len() == self.oop().len(),
            ip_reach@.len() == self.ip().len(),
            old(side_cache).holds(self.terminal_cache@),
        ensures
            final(side_cache).holds(self.terminal_cache@),
            r@ == self.showdown_spec(ref_views(refs@), oop_reach@, ip_reach@, pot, limit, mode),
            r@.sized(self.oop().len(), self.ip().len()),
            final(side_cache).asked() == self.refs_asked(
                old(side_cache).asked(),
                ref_views(refs@),
                oop_reach@,
                ip_reach@,
                mode,
                refs@.len(),
            ),
            *final(profile) == self.refs_profiled(
                *old(profile),
                ref_views(refs@),
                oop_reach@,
                ip_reach@,
                limit,
                mode,
                refs@.len(),
            ),
    {
        let ghost start = *profile;
        let ghost asked = side_cache.asked();
        let ghost views = ref_views(refs@);
        let chips: S = S::from_u32(pot);
        let mut oop: SideAccumulator<S> = SideAccumulator::zero(oop_reach.len());
        let mut ip: SideAccumulator<S> = SideAccumulator::zero(ip_reach.len());
        let mut terminal_evals: usize = 0;
        for n in 0..refs.len()
            invariant
                self.wf(),
                views == ref_views(refs@),
                self.holds_refs(views),
                oop_reach@.len() == self.oop().len(),
                ip_reach@.len() == self.ip().len(),
                side_cache.holds(self.terminal_cache@),
                chips == S::from_u32_spec(pot),
                oop@.values.len() == self.oop().len(),
                oop@.counts.len() == self.oop().len(),
                ip@.values.len() == self.ip().len(),
                ip@.counts.len() == self.ip().len(),
                oop@ == self.refs_gathered(
                    Player::Oop,
                    views,
                    oop_reach@,
                    ip_reach@,
                    pot,
                    limit,
                    mode,
                    n as nat,
                ),
                ip@ == self.refs_gathered(
                    Player::Ip,
                    views,
                    oop_reach@,
                    ip_reach@,
                    pot,
                    limit,
                    mode,
                    n as nat,
                ),
                terminal_evals == refs_evals(views, n as nat),
                side_cache.asked() == self.refs_asked(
                    asked,
                    views,
                    oop_reach@,
                    ip_reach@,
                    mode,
                    n as nat,
                ),
                *profile == self.refs_profiled(
                    start,
                    views,
                    oop_reach@,
                    ip_reach@,
                    limit,
                    mode,
                    n as nat,
                ),
        {
            let class: &TerminalCacheRef = &refs[n];
            proof {
                assert(refs@[n as int].cache_index == views[n as int].cache_index);
                assert(self.terminal_cache@[class.cache_index as int].fits(self.oop(), self.ip()));
                self.lemma_indices(class.cache_index as int, Player::Oop);
                self.lemma_indices(class.cache_index as int, Player::Ip);
                assert(self.combo_permutations.fits(self.oop(), self.ip()));
                assert forall|m: int| 0 <= m < class.member_permutation_codes@.len() implies self.maps_code(
                    #[trigger] class.member_permutation_codes@[m],
                ) by {
                    assert(views[n as int].codes[m] == class.member_permutation_codes@[m]);
                }
            }
            let cache: &TerminalEvalCache = &self.terminal_cache[class.cache_index];
            let count: usize = cache.prepared.len();
            let oop_live: LiveReach<S> = reach_on_prepared_board_targets_sparse(
                &cache.oop_targets,
                oop_reach,
                count,
            );
            let ip_live: LiveReach<S> = reach_on_prepared_board_targets_sparse(
                &cache.ip_targets,
                ip_reach,
                count,
            );
            profile.add_task(oop_live.nonzero.len(), ip_live.nonzero.len(), limit, mode);
            if mode != TerminalMode::Traverse && oop_live.nonzero.len() == 0 && ip_live.nonzero.len()
                == 0 {
                oop.add_members(
                    None,
                    &cache.oop_combo_indices,
                    &self.combo_permutations,
                    Player::Oop,
                    &class.member_permutation_codes,
                    chips,
                );
                ip.add_members(
                    None,
                    &cache.ip_combo_indices,
                    &self.combo_permutations,
                    Player::Ip,
                    &class.member_permutation_codes,
                    chips,
                );
            } else {
                let sparse: bool = oop_live.nonzero.len() <= limit && ip_live.nonzero.len() <= limit;
                let oop_values: Vec<S> = self.side_on_board(
                    class.cache_index,
                    Player::Oop,
                    &ip_live,
                    sparse,
                    mode,
                    side_cache,
                );
                let ip_values: Vec<S> = self.side_on_board(
                    class.cache_index,
                    Player::Ip,
                    &oop_live,
                    sparse,
                    mode,
                    side_cache,
                );
                oop.add_members(
                    Some(&oop_values),
                    &cache.oop_combo_indices,
                    &self.combo_permutations,
                    Player::Oop,
                    &class.member_permutation_codes,
                    chips,
                );
                ip.add_members(
                    Some(&ip_values),
                    &cache.ip_combo_indices,
                    &self.combo_permutations,
                    Player::Ip,
                    &class.member_permutation_codes,
                    chips,
                );
            }
            terminal_evals = bounded_sum(terminal_evals, class.member_permutation_codes.len());
        }
        Values { oop: oop.finish(), ip: ip.finish(), terminal_evals }
    }
}

fn folding_factor<S: Scalar>(pot: u32, folds: bool) -> (r: S)
    ensures
        r == (if folds {
            S::from_u32_spec(pot).negate_spec()
        } else {
            S::from_u32_spec(pot)
        }),
{
    if folds {
        S::from_u32(pot).negate()
    } else {
        S::from_u32(pot)
    }
}

fn scaled<S: Scalar>(values: &Vec<S>, factor: S) -> (r: Vec<S>)
    ensures
        r@.len() == values@.len(),
        forall|i: int| 0 <= i < r@.len() ==> #[trigger] r@[i] == factor.times_spec(values@[i]),
{
    let mut list: Vec<S> = Vec::new();
    for i in 0..values.len()
        invariant
            list@.len() == i,
            forall|k: int| 0 <= k < i ==> #[trigger] list@[k] == factor.times_spec(values@[k]),
    {
        list.push(factor.times(values[i]));
    }
    list
}

} // verus!
