//! A walk through a tree stays zero-sum: what one player's hands earn at a node the other's lose, whatever
//! the strategies are, over numbers that are not rounded.
use vstd::prelude::*;
use crate::balance::{earned, earnings, products_agree, times_laws};
use crate::boards::member_codes;
use crate::cards::{all_different, deck_without, Card};
use crate::cfr_math::{
    acting_value, acting_values, nonacting_value, nonacting_values, reach_after, weighted,
    weights_of, RealCfrVariant,
};
use crate::fold_weights::are_unlike;
use crate::isomorphism::{class_facts, next_card_classes};
use crate::range::ComboWeight;
use crate::real_cfr::{codes_added, ActionRows, CfrStep, TablesView};
use crate::real_setup::RealSetup;
use crate::real_terminal::ValuesView;
use crate::scalar::{sum_spec, ExactScalar};
use crate::sums::{sum_below, sum_below_plus, sum_below_same, sum_below_zero};
use crate::tree::{Player, PublicNodeKind, TerminalReason};
use crate::tree_shape::is_shaped_at;
use crate::zero_sum::{
    added_values_earn_the_sum, is_zero_sum, scaled_sums_cancel, worthless_hands_earn_nothing,
};

verus! {

/// What the actor's hands earn is what they earn by each action, taken as often as it is taken.
proof fn lemma_acting<S: ExactScalar>(
    reach: Seq<S>,
    rows: Seq<Seq<S>>,
    strategies: Seq<S>,
    actions: int,
    by_action: spec_fn(int) -> S,
    n: nat,
)
    requires
        products_agree::<S>(),
        forall|a: int|
            0 <= a < n ==> #[trigger] by_action(a) == earned(
                reach_after(reach, strategies, actions, a),
                rows[a],
            ),
    ensures
        sum_below(
            |h: int| reach[h].times_spec(acting_value(rows, strategies, actions, h, n)),
            reach.len(),
        ) == sum_below(by_action, n),
    decreases n,
{
    let whole = |h: int| reach[h].times_spec(acting_value(rows, strategies, actions, h, n));
    if n == 0 {
        assert forall|h: int| 0 <= h < reach.len() implies #[trigger] whole(h) == S::zero_spec() by {
            S::times_unit(reach[h]);
        }
        sum_below_zero(whole, reach.len());
    } else {
        let m = (n - 1) as nat;
        lemma_acting(reach, rows, strategies, actions, by_action, m);
        let front = |h: int| reach[h].times_spec(acting_value(rows, strategies, actions, h, m));
        let after = reach_after(reach, strategies, actions, n - 1);
        let last = earnings(after, rows[n - 1]);
        let both = |h: int| front(h).plus_spec(last(h));
        assert forall|h: int| 0 <= h < reach.len() implies #[trigger] both(h) == whole(h) by {
            let share = strategies[h * actions + n - 1];
            assert(h * actions + (n - 1) == h * actions + n - 1);
            let value = rows[n - 1][h];
            times_laws(
                reach[h],
                acting_value(rows, strategies, actions, h, m),
                share.times_spec(value),
            );
            times_laws(reach[h], share, value);
        }
        sum_below_plus(front, last, reach.len());
        sum_below_same(both, whole, reach.len());
        sum_below_same(
            both,
            |h: int| front(h).plus_spec(last(h)),
            reach.len(),
        );
        sum_below_same(
            front,
            |h: int| reach[h].times_spec(acting_value(rows, strategies, actions, h, m)),
            reach.len(),
        );
        assert(by_action(n - 1) == earned(after, rows[n - 1]));
    }
}

/// What the other player's hands earn is what they earn by each action.
proof fn lemma_nonacting<S: ExactScalar>(
    reach: Seq<S>,
    rows: Seq<Seq<S>>,
    by_action: spec_fn(int) -> S,
    n: nat,
)
    requires
        products_agree::<S>(),
        forall|a: int| 0 <= a < n ==> #[trigger] by_action(a) == earned(reach, rows[a]),
    ensures
        sum_below(|h: int| reach[h].times_spec(nonacting_value(rows, h, n)), reach.len())
            == sum_below(by_action, n),
    decreases n,
{
    let whole = |h: int| reach[h].times_spec(nonacting_value(rows, h, n));
    if n == 0 {
        assert forall|h: int| 0 <= h < reach.len() implies #[trigger] whole(h) == S::zero_spec() by {
            S::times_unit(reach[h]);
        }
        sum_below_zero(whole, reach.len());
    } else {
        let m = (n - 1) as nat;
        lemma_nonacting(reach, rows, by_action, m);
        let front = |h: int| reach[h].times_spec(nonacting_value(rows, h, m));
        let last = earnings(reach, rows[n - 1]);
        let both = |h: int| front(h).plus_spec(last(h));
        assert forall|h: int| 0 <= h < reach.len() implies #[trigger] both(h) == whole(h) by {
            times_laws(reach[h], nonacting_value(rows, h, m), rows[n - 1][h]);
        }
        sum_below_plus(front, last, reach.len());
        sum_below_same(both, whole, reach.len());
        sum_below_same(both, |h: int| front(h).plus_spec(last(h)), reach.len());
        sum_below_same(
            front,
            |h: int| reach[h].times_spec(nonacting_value(rows, h, m)),
            reach.len(),
        );
        assert(by_action(n - 1) == earned(reach, rows[n - 1]));
    }
}

/// If both players together earn nothing by any action, they earn nothing at the decision.
proof fn lemma_decided<S: ExactScalar>(
    actor_reach: Seq<S>,
    other_reach: Seq<S>,
    actor_rows: Seq<Seq<S>>,
    other_rows: Seq<Seq<S>>,
    strategies: Seq<S>,
    actions: nat,
)
    requires
        products_agree::<S>(),
        forall|a: int|
            0 <= a < actions ==> earned(
                reach_after(actor_reach, strategies, actions as int, a),
                #[trigger] actor_rows[a],
            ).plus_spec(earned(other_reach, other_rows[a])) == S::zero_spec(),
    ensures
        earned(
            actor_reach,
            acting_values(actor_rows, strategies, actions as int, actor_reach.len()),
        ).plus_spec(
            earned(other_reach, nonacting_values(other_rows, actions as int, other_reach.len())),
        ) == S::zero_spec(),
{
    let own = |a: int|
        earned(reach_after(actor_reach, strategies, actions as int, a), actor_rows[a]);
    let other = |a: int| earned(other_reach, other_rows[a]);
    lemma_acting(actor_reach, actor_rows, strategies, actions as int, own, actions);
    lemma_nonacting(other_reach, other_rows, other, actions);
    let acting = acting_values(actor_rows, strategies, actions as int, actor_reach.len());
    let nonacting = nonacting_values(other_rows, actions as int, other_reach.len());
    sum_below_same(
        earnings(actor_reach, acting),
        |h: int|
            actor_reach[h].times_spec(
                acting_value(actor_rows, strategies, actions as int, h, actions),
            ),
        actor_reach.len(),
    );
    sum_below_same(
        earnings(other_reach, nonacting),
        |h: int| other_reach[h].times_spec(nonacting_value(other_rows, h, actions)),
        other_reach.len(),
    );
    sum_below_plus(own, other, actions);
    let both = |a: int| own(a).plus_spec(other(a));
    assert forall|a: int| 0 <= a < actions implies #[trigger] both(a) == S::zero_spec() by {
        assert(earned(
            reach_after(actor_reach, strategies, actions as int, a),
            actor_rows[a],
        ).plus_spec(earned(other_reach, other_rows[a])) == S::zero_spec());
    }
    sum_below_zero(both, actions);
    sum_below_same(both, |a: int| own(a).plus_spec(other(a)), actions);
}

impl<S: ExactScalar> RealSetup<S> {
    /// Whether the numbers and the ranges are such that walks stay zero-sum: nothing is rounded, no hand
    /// stands in a range twice, and no symmetry makes two boards alike.
    pub open spec fn walks_plainly(self) -> bool {
        &&& products_agree::<S>()
        &&& self.wf()
        &&& are_unlike(self.oop())
        &&& are_unlike(self.ip())
        &&& self.is_plain()
    }

    /// Whether a walk can come to a node on a board.
    pub open spec fn meets(self, node_id: int, board: Seq<Card>) -> bool {
        &&& 0 <= node_id < self.tree.nodes@.len()
        &&& self.knows(board)
        &&& all_different(board)
        &&& board.len() == self.tree.nodes@[node_id].state.board@.len()
    }

    /// Adding what a class of cards gives keeps values that cancel out.
    proof fn lemma_codes(
        self,
        front: ValuesView<S>,
        below: ValuesView<S>,
        oop_reach: Seq<S>,
        ip_reach: Seq<S>,
        codes: Seq<u8>,
        weight: S,
        n: nat,
    )
        requires
            products_agree::<S>(),
            oop_reach.len() == self.oop().len(),
            ip_reach.len() == self.ip().len(),
            front.sized(self.oop().len(), self.ip().len()),
            is_zero_sum(front, oop_reach, ip_reach),
            is_zero_sum(below, oop_reach, ip_reach),
            n <= codes.len(),
            forall|m: int| 0 <= m < codes.len() ==> self.moves_nothing(#[trigger] codes[m]),
        ensures
            ({
                let oop = codes_added(
                    front.oop,
                    below.oop,
                    self.combo_permutations,
                    Player::Oop,
                    codes,
                    weight,
                    n,
                );
                let ip = codes_added(
                    front.ip,
                    below.ip,
                    self.combo_permutations,
                    Player::Ip,
                    codes,
                    weight,
                    n,
                );
                &&& oop.len() == self.oop().len()
                &&& ip.len() == self.ip().len()
                &&& earned(oop_reach, oop).plus_spec(earned(ip_reach, ip)) == S::zero_spec()
            }),
        decreases n,
    {
        if n > 0 {
            let m = (n - 1) as nat;
            self.lemma_codes(front, below, oop_reach, ip_reach, codes, weight, m);
            assert(self.moves_nothing(codes[n - 1]));
            let permutations = self.combo_permutations;
            let oop = codes_added(front.oop, below.oop, permutations, Player::Oop, codes, weight, m);
            let ip = codes_added(front.ip, below.ip, permutations, Player::Ip, codes, weight, m);
            let oop_now = codes_added(
                front.oop,
                below.oop,
                permutations,
                Player::Oop,
                codes,
                weight,
                n,
            );
            let ip_now = codes_added(front.ip, below.ip, permutations, Player::Ip, codes, weight, n);
            assert forall|s: int| 0 <= s < oop_reach.len() implies #[trigger] oop_now[s]
                == oop[s].plus_spec(below.oop[s].times_spec(weight)) by {
                assert(permutations.map_of(Player::Oop, codes[n - 1])[s] == s);
            }
            assert forall|s: int| 0 <= s < ip_reach.len() implies #[trigger] ip_now[s]
                == ip[s].plus_spec(below.ip[s].times_spec(weight)) by {
                assert(permutations.map_of(Player::Ip, codes[n - 1])[s] == s);
            }
            added_values_earn_the_sum(
                oop_reach,
                oop,
                below.oop,
                weight,
                oop_now,
                oop_reach.len(),
            );
            added_values_earn_the_sum(ip_reach, ip, below.ip, weight, ip_now, ip_reach.len());
            scaled_sums_cancel(
                earned(oop_reach, oop),
                earned(ip_reach, ip),
                earned(oop_reach, below.oop),
                earned(ip_reach, below.ip),
                weight,
            );
        }
    }

    /// What both players' hands earn from a node on adds up to nothing.
    pub proof fn visits_are_zero_sum(
        self,
        node_id: int,
        board: Seq<Card>,
        oop_reach: Seq<S>,
        ip_reach: Seq<S>,
        tables: TablesView<S>,
        step: CfrStep<S>,
    )
        requires
            self.walks_plainly(),
            self.meets(node_id, board),
            oop_reach.len() == self.oop().len(),
            ip_reach.len() == self.ip().len(),
        ensures
            ({
                let values = self.visit(node_id, board, oop_reach, ip_reach, tables, step).values;
                &&& values.sized(self.oop().len(), self.ip().len())
                &&& is_zero_sum(values, oop_reach, ip_reach)
            }),
        decreases self.tree.nodes@.len() - node_id, 1int, 0int,
    {
        let node = self.tree.nodes@[node_id];
        assert(is_shaped_at(self.tree.nodes@, node_id));
        worthless_hands_earn_nothing(oop_reach);
        worthless_hands_earn_nothing(ip_reach);
        S::plus_zero(S::zero_spec());
        match node.kind {
            PublicNodeKind::Terminal { reason } => {
                match reason {
                    TerminalReason::Fold => {
                        self.folds_are_zero_sum(
                            board,
                            node.state.pot,
                            node.state.player,
                            oop_reach,
                            ip_reach,
                        );
                    },
                    _ => {
                        self.showdowns_are_zero_sum(
                            board,
                            oop_reach,
                            ip_reach,
                            node.state.pot,
                            step.limit,
                        );
                        self.showdowns_have_all_hands(
                            self.refs(board),
                            oop_reach,
                            ip_reach,
                            node.state.pot,
                            step.limit,
                        );
                    },
                }
            },
            PublicNodeKind::Chance(chance) => {
                if node.children@.len() > 0 {
                    let n = next_card_classes(board, self.oop(), self.ip()).len();
                    self.lemma_cards(node_id, board, oop_reach, ip_reach, tables, step, n);
                }
            },
            PublicNodeKind::Decision { player, actions } => {
                assert(forall|k: int|
                    0 <= k < node.children@.len() ==> self.meets(
                        #[trigger] node.children@[k] as int,
                        board,
                    ));
                if actions@.len() == 1 {
                    assert(self.meets(node.children@[0] as int, board));
                    self.visits_are_zero_sum(
                        node.children@[0] as int,
                        board,
                        oop_reach,
                        ip_reach,
                        tables,
                        step,
                    );
                } else {
                    let slot = self.slot(board) as int;
                    let strategies = self.strategies_spec(
                        node_id,
                        slot,
                        tables.regrets,
                        self.combos(player),
                        actions@.len(),
                    );
                    self.lemma_actions(
                        node_id,
                        player,
                        strategies,
                        board,
                        oop_reach,
                        ip_reach,
                        tables,
                        step,
                        actions@.len(),
                    );
                    let rows = self.visit_actions(
                        node_id,
                        player,
                        strategies,
                        board,
                        oop_reach,
                        ip_reach,
                        tables,
                        step,
                        actions@.len(),
                    );
                    self.lemma_decision(player, strategies, rows, oop_reach, ip_reach, actions@.len());
                }
            },
        }
    }

    /// Whether both players together earn nothing by any action.
    spec fn rows_cancel(
        self,
        player: Player,
        strategies: Seq<S>,
        rows: ActionRows<S>,
        oop_reach: Seq<S>,
        ip_reach: Seq<S>,
        actions: int,
        n: nat,
    ) -> bool {
        &&& rows.oop.len() == n
        &&& rows.ip.len() == n
        &&& forall|a: int| 0 <= a < n ==> #[trigger] self.row_cancels(
            player,
            strategies,
            rows,
            oop_reach,
            ip_reach,
            actions,
            a,
        )
    }

    /// Whether both players together earn nothing by an action.
    spec fn row_cancels(
        self,
        player: Player,
        strategies: Seq<S>,
        rows: ActionRows<S>,
        oop_reach: Seq<S>,
        ip_reach: Seq<S>,
        actions: int,
        a: int,
    ) -> bool {
        match player {
            Player::Oop => earned(
                reach_after(oop_reach, strategies, actions, a),
                rows.oop[a],
            ).plus_spec(earned(ip_reach, rows.ip[a])) == S::zero_spec(),
            Player::Ip => earned(oop_reach, rows.oop[a]).plus_spec(
                earned(reach_after(ip_reach, strategies, actions, a), rows.ip[a]),
            ) == S::zero_spec(),
        }
    }

    proof fn lemma_decision(
        self,
        player: Player,
        strategies: Seq<S>,
        rows: ActionRows<S>,
        oop_reach: Seq<S>,
        ip_reach: Seq<S>,
        actions: nat,
    )
        requires
            products_agree::<S>(),
            oop_reach.len() == self.oop().len(),
            ip_reach.len() == self.ip().len(),
            self.rows_cancel(
                player,
                strategies,
                rows,
                oop_reach,
                ip_reach,
                actions as int,
                actions,
            ),
        ensures
            match player {
                Player::Oop => earned(
                    oop_reach,
                    acting_values(rows.oop, strategies, actions as int, self.oop().len()),
                ).plus_spec(
                    earned(ip_reach, nonacting_values(rows.ip, actions as int, self.ip().len())),
                ) == S::zero_spec(),
                Player::Ip => earned(
                    oop_reach,
                    nonacting_values(rows.oop, actions as int, self.oop().len()),
                ).plus_spec(
                    earned(
                        ip_reach,
                        acting_values(rows.ip, strategies, actions as int, self.ip().len()),
                    ),
                ) == S::zero_spec(),
            },
    {
        match player {
            Player::Oop => {
                assert forall|a: int| 0 <= a < actions implies earned(
                    reach_after(oop_reach, strategies, actions as int, a),
                    #[trigger] rows.oop[a],
                ).plus_spec(earned(ip_reach, rows.ip[a])) == S::zero_spec() by {
                    assert(self.row_cancels(
                        player,
                        strategies,
                        rows,
                        oop_reach,
                        ip_reach,
                        actions as int,
                        a,
                    ));
                }
                lemma_decided(oop_reach, ip_reach, rows.oop, rows.ip, strategies, actions);
            },
            Player::Ip => {
                assert forall|a: int| 0 <= a < actions implies earned(
                    reach_after(ip_reach, strategies, actions as int, a),
                    #[trigger] rows.ip[a],
                ).plus_spec(earned(oop_reach, rows.oop[a])) == S::zero_spec() by {
                    assert(self.row_cancels(
                        player,
                        strategies,
                        rows,
                        oop_reach,
                        ip_reach,
                        actions as int,
                        a,
                    ));
                    S::plus_commutes(
                        earned(reach_after(ip_reach, strategies, actions as int, a), rows.ip[a]),
                        earned(oop_reach, rows.oop[a]),
                    );
                }
                lemma_decided(ip_reach, oop_reach, rows.ip, rows.oop, strategies, actions);
                S::plus_commutes(
                    earned(
                        oop_reach,
                        nonacting_values(rows.oop, actions as int, self.oop().len()),
                    ),
                    earned(
                        ip_reach,
                        acting_values(rows.ip, strategies, actions as int, self.ip().len()),
                    ),
                );
            },
        }
    }

    proof fn lemma_cards(
        self,
        node_id: int,
        board: Seq<Card>,
        oop_reach: Seq<S>,
        ip_reach: Seq<S>,
        tables: TablesView<S>,
        step: CfrStep<S>,
        n: nat,
    )
        requires
            self.walks_plainly(),
            self.meets(node_id, board),
            self.tree.nodes@[node_id].kind is Chance,
            self.tree.nodes@[node_id].children@.len() > 0,
            n <= next_card_classes(board, self.oop(), self.ip()).len(),
            oop_reach.len() == self.oop().len(),
            ip_reach.len() == self.ip().len(),
        ensures
            ({
                let values = self.visit_cards(
                    node_id,
                    board,
                    oop_reach,
                    ip_reach,
                    tables,
                    step,
                    n,
                ).values;
                &&& values.sized(self.oop().len(), self.ip().len())
                &&& is_zero_sum(values, oop_reach, ip_reach)
            }),
        decreases self.tree.nodes@.len() - node_id, 0int, n,
    {
        if n == 0 {
            worthless_hands_earn_nothing(oop_reach);
            worthless_hands_earn_nothing(ip_reach);
            S::plus_zero(S::zero_spec());
        } else {
            let (oop, ip) = (self.oop(), self.ip());
            self.lemma_cards(
                node_id,
                board,
                oop_reach,
                ip_reach,
                tables,
                step,
                (n - 1) as nat,
            );
            let front = self.visit_cards(
                node_id,
                board,
                oop_reach,
                ip_reach,
                tables,
                step,
                (n - 1) as nat,
            );
            assert(is_shaped_at(self.tree.nodes@, node_id));
            let child = self.tree.nodes@[node_id].children@[0] as int;
            assert(node_id < self.tree.nodes@[node_id].children@[0] < self.tree.nodes@.len());
            class_facts(board, oop, ip, deck_without(board).len());
            let class = next_card_classes(board, oop, ip)[n - 1];
            let longer = board.push(class.representative);
            self.knows_next(board, n - 1);
            assert(all_different(longer)) by {
                assert(!board.contains(class.representative));
            }
            assert(self.meets(child, longer));
            self.visits_are_zero_sum(child, longer, oop_reach, ip_reach, front.tables, step);
            let below = self.visit(child, longer, oop_reach, ip_reach, front.tables, step);
            let codes = member_codes(class.members);
            self.identity_moves_nothing();
            assert forall|m: int| 0 <= m < codes.len() implies self.moves_nothing(
                #[trigger] codes[m],
            ) by {
                let member = class.members[m];
                assert(member.permutation_to_representative.wf());
            }
            let weight = S::one_spec().over_spec(
                S::from_count_spec(deck_without(board).len() as usize),
            );
            self.lemma_codes(
                front.values,
                below.values,
                oop_reach,
                ip_reach,
                codes,
                weight,
                codes.len(),
            );
        }
    }

    proof fn lemma_actions(
        self,
        node_id: int,
        player: Player,
        strategies: Seq<S>,
        board: Seq<Card>,
        oop_reach: Seq<S>,
        ip_reach: Seq<S>,
        tables: TablesView<S>,
        step: CfrStep<S>,
        n: nat,
    )
        requires
            self.walks_plainly(),
            self.meets(node_id, board),
            self.tree.nodes@[node_id].kind is Decision,
            n <= self.tree.nodes@[node_id].children@.len(),
            oop_reach.len() == self.oop().len(),
            ip_reach.len() == self.ip().len(),
        ensures
            self.rows_cancel(
                player,
                strategies,
                self.visit_actions(
                    node_id,
                    player,
                    strategies,
                    board,
                    oop_reach,
                    ip_reach,
                    tables,
                    step,
                    n,
                ),
                oop_reach,
                ip_reach,
                self.tree.nodes@[node_id].children@.len() as int,
                n,
            ),
        decreases self.tree.nodes@.len() - node_id, 0int, n,
    {
        if n > 0 {
            let m = (n - 1) as nat;
            self.lemma_actions(
                node_id,
                player,
                strategies,
                board,
                oop_reach,
                ip_reach,
                tables,
                step,
                m,
            );
            let front = self.visit_actions(
                node_id,
                player,
                strategies,
                board,
                oop_reach,
                ip_reach,
                tables,
                step,
                m,
            );
            let node = self.tree.nodes@[node_id];
            let actions = node.children@.len() as int;
            assert(is_shaped_at(self.tree.nodes@, node_id));
            let child = node.children@[n - 1] as int;
            assert(node_id < node.children@[n - 1] < self.tree.nodes@.len());
            assert(self.meets(child, board));
            match player {
                Player::Oop => {
                    self.visits_are_zero_sum(
                        child,
                        board,
                        reach_after(oop_reach, strategies, actions, n - 1),
                        ip_reach,
                        front.tables,
                        step,
                    );
                },
                Player::Ip => {
                    self.visits_are_zero_sum(
                        child,
                        board,
                        oop_reach,
                        reach_after(ip_reach, strategies, actions, n - 1),
                        front.tables,
                        step,
                    );
                },
            }
            let rows = self.visit_actions(
                node_id,
                player,
                strategies,
                board,
                oop_reach,
                ip_reach,
                tables,
                step,
                n,
            );
            assert forall|a: int| 0 <= a < n implies #[trigger] self.row_cancels(
                player,
                strategies,
                rows,
                oop_reach,
                ip_reach,
                actions,
                a,
            ) by {
                if a < n - 1 {
                    assert(self.row_cancels(
                        player,
                        strategies,
                        front,
                        oop_reach,
                        ip_reach,
                        actions,
                        a,
                    ));
                    assert(rows.oop[a] == front.oop[a] && rows.ip[a] == front.ip[a]);
                }
            }
        }
    }

    /// After any number of walks from any tables, the value of the root to one player and its value to
    /// the other add up to nothing.
    pub proof fn walks_are_zero_sum(
        self,
        tables: TablesView<S>,
        completed: int,
        variant: RealCfrVariant<S>,
        limit: usize,
        n: nat,
    )
        requires
            self.walks_plainly(),
        ensures
            ({
                let values = self.walked(tables, completed, variant, limit, n).values;
                self.root_value(Player::Oop, values).plus_spec(self.root_value(Player::Ip, values))
                    == S::zero_spec()
            }),
    {
        let (oop_reach, ip_reach) = (weights_of(self.oop()), weights_of(self.ip()));
        let values = self.walked(tables, completed, variant, limit, n).values;
        let zero = S::zero_spec();
        S::plus_zero(zero);
        if n == 0 {
            worthless_hands_earn_nothing(oop_reach);
            worthless_hands_earn_nothing(ip_reach);
        } else {
            self.flop_board.wf_facts();
            assert(self.meets(0, self.flop_board@));
            self.visits_are_zero_sum(
                0,
                self.flop_board@,
                oop_reach,
                ip_reach,
                self.walked(tables, completed, variant, limit, (n - 1) as nat).tables,
                Self::walk_step((completed + n) as u32, variant, limit),
            );
        }
        lemma_weighted(values.oop, self.oop(), self.oop().len());
        lemma_weighted(values.ip, self.ip(), self.ip().len());
        let (oop_earned, ip_earned) = (earned(oop_reach, values.oop), earned(ip_reach, values.ip));
        let (oop_weight, ip_weight) = (sum_spec(oop_reach), sum_spec(ip_reach));
        let weight = oop_weight.times_spec(ip_weight);
        assert(weighted(values.oop, self.oop()).take(self.oop().len() as int) =~= weighted(
            values.oop,
            self.oop(),
        ));
        assert(weighted(values.ip, self.ip()).take(self.ip().len() as int) =~= weighted(
            values.ip,
            self.ip(),
        ));
        times_laws(oop_weight, ip_weight, zero);
        times_laws(oop_earned, weight, zero);
        times_laws(ip_earned, weight, zero);
        scaled_sums_cancel(zero, zero, oop_earned, ip_earned, S::one_spec().over_spec(weight));
    }
}

/// Products of values and weights add up to what hands of those weights earn.
proof fn lemma_weighted<S: ExactScalar>(values: Seq<S>, combos: Seq<ComboWeight<S>>, n: nat)
    requires
        products_agree::<S>(),
        n <= values.len() == combos.len(),
    ensures
        sum_spec(weighted(values, combos).take(n as int)) == sum_below(
            earnings(weights_of(combos), values),
            n,
        ),
    decreases n,
{
    let list = weighted(values, combos);
    if n > 0 {
        lemma_weighted(values, combos, (n - 1) as nat);
        assert(list.take(n as int).drop_last() =~= list.take(n - 1));
        times_laws(values[n - 1], combos[n - 1].weight, S::zero_spec());
    }
}

} // verus!
