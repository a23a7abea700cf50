//! What a solver of a subgame has learned at each decision of each hand.
use vstd::prelude::*;
use crate::cards::Card;
use crate::index_map::KeyMap;
use crate::river::{scatter, scattered};
use crate::scalar::{ratio, ratio_spec, Scalar};
use crate::subgame::{Player, Sides};
use crate::subgame_actions::ActionKind;
use crate::subgame_deals::PostflopCombo;
use crate::subgame_tree::NodeId;

verus! {

/// How regrets and strategies of iterations are weighed.
#[derive(Clone, Copy, Debug, PartialEq, Eq, Structural)]
pub enum CfrVariant {
    CfrPlus,
    DcfrPlus,
}

impl Default for CfrVariant {
    fn default() -> (r: Self)
        ensures
            r == CfrVariant::CfrPlus,
    {
        CfrVariant::CfrPlus
    }
}

/// How much of an old regret is kept.
pub open spec fn discount_spec<S: Scalar>(regret: S, iteration: usize, variant: CfrVariant) -> S {
    match variant {
        CfrVariant::CfrPlus => S::one_spec(),
        CfrVariant::DcfrPlus => {
            let exponent = if regret.at_least_spec(S::zero_spec()) {
                ratio_spec(3, 2)
            } else {
                S::zero_spec()
            };
            let power = S::from_count_spec(iteration).power_spec(exponent);
            power.over_spec(power.plus_spec(S::one_spec()))
        },
    }
}

/// How much of an old regret is kept.
pub fn regret_discount<S: Scalar>(regret: S, iteration: usize, variant: CfrVariant) -> (r: S)
    ensures
        r == discount_spec(regret, iteration, variant),
{
    match variant {
        CfrVariant::CfrPlus => S::one(),
        CfrVariant::DcfrPlus => {
            let exponent: S = if regret.at_least(S::zero()) {
                ratio(3, 2)
            } else {
                S::zero()
            };
            let power: S = S::from_count(iteration).power(exponent);
            power.over(power.plus(S::one()))
        },
    }
}

/// How much the strategy of an iteration counts.
pub open spec fn average_weight_spec<S: Scalar>(variant: CfrVariant, iteration: usize) -> S {
    let t = S::from_count_spec(iteration);
    match variant {
        CfrVariant::CfrPlus => t,
        CfrVariant::DcfrPlus => t.times_spec(t),
    }
}

/// How much the strategy of an iteration counts.
pub fn average_strategy_weight<S: Scalar>(variant: CfrVariant, iteration: usize) -> (r: S)
    ensures
        r == average_weight_spec::<S>(variant, iteration),
{
    let t: S = S::from_count(iteration);
    match variant {
        CfrVariant::CfrPlus => t,
        CfrVariant::DcfrPlus => t.times(t),
    }
}

/// The first `n` values added up, from zero on.
pub open spec fn total<S: Scalar>(values: Seq<S>, n: nat) -> S
    decreases n,
{
    if n == 0 {
        S::zero_spec()
    } else {
        total(values, (n - 1) as nat).plus_spec(values[n - 1])
    }
}

/// Values as shares of their sum, or all the same share where the sum is not above zero.
pub open spec fn shares<S: Scalar>(values: Seq<S>) -> Seq<S> {
    let sum = total(values, values.len());
    Seq::new(
        values.len(),
        |i: int|
            if sum.exceeds_spec(S::zero_spec()) {
                values[i].over_spec(sum)
            } else {
                S::one_spec().over_spec(S::from_count_spec(values.len() as usize))
            },
    )
}

/// Values as shares of their sum.
pub fn shares_of<S: Scalar>(values: &[S]) -> (r: Vec<S>)
    ensures
        r@ == shares(values@),
{
    let mut sum: S = S::zero();
    for i in 0..values.len()
        invariant
            sum == total(values@, i as nat),
    {
        sum = sum.plus(values[i]);
    }
    let some: bool = sum.exceeds(S::zero());
    let mut list: Vec<S> = Vec::new();
    for i in 0..values.len()
        invariant
            sum == total(values@, values@.len()),
            some == sum.exceeds_spec(S::zero_spec()),
            list@ =~= shares(values@).take(i as int),
    {
        list.push(
            if some {
                values[i].over(sum)
            } else {
                S::one().over(S::from_count(values.len()))
            },
        );
        assert(shares(values@).take(i + 1) =~= shares(values@).take(i as int).push(
            shares(values@)[i as int],
        ));
    }
    assert(shares(values@).take(values@.len() as int) =~= shares(values@));
    list
}

/// Regrets with those below zero at zero.
pub open spec fn above_zero<S: Scalar>(regrets: Seq<S>) -> Seq<S> {
    Seq::new(regrets.len(), |i: int| regrets[i].max_spec(S::zero_spec()))
}

/// How a hand acts by its regrets.
pub open spec fn strategy_spec<S: Scalar>(regrets: Seq<S>) -> Seq<S> {
    shares(above_zero(regrets))
}

/// How a hand acts by its regrets.
pub fn strategy<S: Scalar>(regrets: &[S]) -> (r: Vec<S>)
    ensures
        r@ == strategy_spec(regrets@),
{
    let mut positive: Vec<S> = Vec::new();
    for i in 0..regrets.len()
        invariant
            positive@ =~= above_zero(regrets@).take(i as int),
    {
        positive.push(regrets[i].max_of(S::zero()));
        assert(above_zero(regrets@).take(i + 1) =~= above_zero(regrets@).take(i as int).push(
            above_zero(regrets@)[i as int],
        ));
    }
    assert(above_zero(regrets@).take(regrets@.len() as int) =~= above_zero(regrets@));
    shares_of(&positive)
}

/// By what a decision of a hand is known.
#[derive(Clone, Copy, Debug, PartialEq, Eq, Structural)]
pub struct InfoKey {
    pub place: u64,
    pub history: u64,
    pub step: u64,
    pub hand: u64,
}

/// A number that scatters keys.
#[verifier::opaque]
pub open spec fn key_code(key: InfoKey) -> u64 {
    scattered(scattered(scattered(key.place ^ key.hand) ^ key.history) ^ key.step)
}

fn code_of(key: InfoKey) -> (r: u64)
    ensures
        r == key_code(key),
{
    proof {
        reveal(key_code);
    }
    scatter(scatter(scatter(key.place ^ key.hand) ^ key.history) ^ key.step)
}

/// What does not change at a decision of a hand.
#[derive(Clone, Debug)]
pub struct InfoFacts<S> {
    pub node: NodeId,
    pub player: Player,
    pub board: Vec<Card>,
    pub history: Vec<ActionKind<S>>,
    pub combo: PostflopCombo,
    pub equity: S,
    pub actions: Vec<ActionKind<S>>,
}

/// What does not change at a decision of a hand, by value.
pub ghost struct FactsView<S> {
    pub node: NodeId,
    pub player: Player,
    pub board: Seq<Card>,
    pub history: Seq<ActionKind<S>>,
    pub combo: PostflopCombo,
    pub equity: S,
    pub actions: Seq<ActionKind<S>>,
}

impl<S> View for InfoFacts<S> {
    type V = FactsView<S>;

    open spec fn view(&self) -> FactsView<S> {
        FactsView {
            node: self.node,
            player: self.player,
            board: self.board@,
            history: self.history@,
            combo: self.combo,
            equity: self.equity,
            actions: self.actions@,
        }
    }
}

/// A decision of a hand with what was learned there.
pub ghost struct Entry<S> {
    pub key: InfoKey,
    pub facts: FactsView<S>,
    pub regrets: Seq<S>,
    pub sums: Seq<S>,
}

/// A decision of a hand before anything was learned there.
pub open spec fn fresh<S: Scalar>(key: InfoKey, facts: FactsView<S>) -> Entry<S> {
    let nothing = Seq::new(facts.actions.len(), |i: int| S::zero_spec());
    Entry { key, facts, regrets: nothing, sums: nothing }
}

/// The last place of a key among the first `n` entries, or -1.
pub open spec fn latest<S>(entries: Seq<Entry<S>>, key: InfoKey, n: nat) -> int
    decreases n,
{
    if n == 0 {
        -1
    } else if entries[n - 1].key == key {
        n - 1
    } else {
        latest(entries, key, (n - 1) as nat)
    }
}

pub proof fn lemma_latest<S>(entries: Seq<Entry<S>>, key: InfoKey, n: nat)
    requires
        n <= entries.len(),
    ensures
        -1 <= latest(entries, key, n) < n,
        latest(entries, key, n) >= 0 ==> entries[latest(entries, key, n)].key == key,
        forall|i: int|
            latest(entries, key, n) < i < n ==> (#[trigger] entries[i]).key != key,
    decreases n,
{
    if n > 0 {
        lemma_latest(entries, key, (n - 1) as nat);
    }
}

/// The last place before `n` of a key with a code, or -1.
pub open spec fn latest_code(keys: Seq<InfoKey>, code: u64, n: nat) -> int
    decreases n,
{
    if n == 0 {
        -1
    } else if key_code(keys[n - 1]) == code {
        n - 1
    } else {
        latest_code(keys, code, (n - 1) as nat)
    }
}

proof fn lemma_latest_code(keys: Seq<InfoKey>, more: Seq<InfoKey>, code: u64, n: nat)
    requires
        n <= keys.len() <= more.len(),
        forall|i: int| 0 <= i < keys.len() ==> #[trigger] more[i] == keys[i],
    ensures
        -1 <= latest_code(keys, code, n) < n,
        latest_code(keys, code, n) >= 0 ==> key_code(keys[latest_code(keys, code, n)]) == code,
        forall|i: int|
            latest_code(keys, code, n) < i < n ==> key_code(#[trigger] keys[i]) != code,
        latest_code(more, code, n) == latest_code(keys, code, n),
    decreases n,
{
    if n > 0 {
        lemma_latest_code(keys, more, code, (n - 1) as nat);
    }
}

/// The decisions of hands that were come to, in the order in which they were.
#[derive(Clone, Debug)]
pub struct InfoTable<S> {
    keys: Vec<InfoKey>,
    earlier: Vec<Option<usize>>,
    heads: KeyMap<usize>,
    facts: Vec<InfoFacts<S>>,
    regrets: Vec<Vec<S>>,
    sums: Vec<Vec<S>>,
}

impl<S: Scalar> View for InfoTable<S> {
    type V = Seq<Entry<S>>;

    closed spec fn view(&self) -> Seq<Entry<S>> {
        Seq::new(
            self.keys@.len(),
            |i: int|
                Entry {
                    key: self.keys@[i],
                    facts: self.facts@[i]@,
                    regrets: self.regrets@[i]@,
                    sums: self.sums@[i]@,
                },
        )
    }
}

/// A place as an option.
pub open spec fn some_place(place: int) -> Option<usize> {
    if place >= 0 {
        Some(place as usize)
    } else {
        None
    }
}

impl<S: Scalar> InfoTable<S> {
    /// Whether every entry is found by the code of its key and has a value for each action.
    pub closed spec fn wf(self) -> bool {
        let n = self.keys@.len();
        &&& self.earlier@.len() == n
        &&& self.facts@.len() == n
        &&& self.regrets@.len() == n
        &&& self.sums@.len() == n
        &&& forall|i: int|
            0 <= i < n ==> #[trigger] self.earlier@[i] == some_place(
                latest_code(self.keys@, key_code(self.keys@[i]), i as nat),
            )
        &&& forall|code: u64|
            #![trigger self.heads@.contains_key(code)]
            #![trigger latest_code(self.keys@, code, n)]
            (if self.heads@.contains_key(code) {
                Some(self.heads@[code])
            } else {
                None
            }) == some_place(latest_code(self.keys@, code, n))
        &&& forall|i: int|
            0 <= i < n ==> (#[trigger] self.regrets@[i])@.len() == self.facts@[i].actions@.len()
        &&& forall|i: int|
            0 <= i < n ==> (#[trigger] self.sums@[i])@.len() == self.facts@[i].actions@.len()
    }

    /// Every entry has a value for each action.
    pub proof fn wf_facts(self)
        requires
            self.wf(),
        ensures
            self@.len() <= usize::MAX,
            forall|i: int|
                0 <= i < self@.len() ==> (#[trigger] self@[i]).regrets.len()
                    == self@[i].facts.actions.len() && self@[i].sums.len()
                    == self@[i].facts.actions.len(),
    {
        assert forall|i: int| 0 <= i < self@.len() implies (#[trigger] self@[i]).regrets.len()
            == self@[i].facts.actions.len() && self@[i].sums.len()
            == self@[i].facts.actions.len() by {
            assert(self.regrets@[i]@.len() == self.facts@[i].actions@.len());
            assert(self.sums@[i]@.len() == self.facts@[i].actions@.len());
        }
        assert(self.keys.len() == self.keys@.len());
    }

    /// A table without entries.
    pub fn new() -> (r: Self)
        ensures
            r.wf(),
            r@ == Seq::<Entry<S>>::empty(),
    {
        let table = InfoTable {
            keys: Vec::new(),
            earlier: Vec::new(),
            heads: KeyMap::new(),
            facts: Vec::new(),
            regrets: Vec::new(),
            sums: Vec::new(),
        };
        assert(table@ =~= Seq::<Entry<S>>::empty());
        table
    }

    /// How many entries there are.
    pub fn len(&self) -> (r: usize)
        ensures
            r == self@.len(),
    {
        self.keys.len()
    }

    /// The head of a code is the last place of a key with that code, and each place names the one
    /// before it.
    proof fn lemma_chain(self, code: u64, place: int)
        requires
            self.wf(),
            0 <= place <= self.keys@.len(),
        ensures
            self.keys@.len() <= usize::MAX,
            place == self.keys@.len() ==> (if self.heads@.contains_key(code) {
                Some(self.heads@[code])
            } else {
                None
            }) == some_place(latest_code(self.keys@, code, place as nat)),
            place < self.keys@.len() && key_code(self.keys@[place]) == code ==> self.earlier@[place]
                == some_place(latest_code(self.keys@, code, place as nat)),
            -1 <= latest_code(self.keys@, code, place as nat) < place,
            latest_code(self.keys@, code, place as nat) >= 0 ==> key_code(
                self.keys@[latest_code(self.keys@, code, place as nat)],
            ) == code,
            forall|i: int|
                latest_code(self.keys@, code, place as nat) < i < place ==> key_code(
                    #[trigger] self.keys@[i],
                ) != code,
    {
        lemma_latest_code(self.keys@, self.keys@, code, place as nat);
        assert(self.keys.len() == self.keys@.len());
    }

    fn search(&self, key: InfoKey) -> (r: Option<usize>)
        requires
            self.wf(),
        ensures
            match r {
                Some(place) => place < self.keys@.len() && self.keys@[place as int] == key
                    && forall|i: int|
                    place < i < self.keys@.len() ==> #[trigger] self.keys@[i] != key,
                None => forall|i: int|
                    0 <= i < self.keys@.len() ==> #[trigger] self.keys@[i] != key,
            },
    {
        let code: u64 = code_of(key);
        let mut at: Option<usize> = match self.heads.get(code) {
            Some(place) => Some(*place),
            None => None,
        };
        proof {
            self.lemma_chain(code, self.keys@.len() as int);
        }
        while at.is_some()
            invariant
                self.wf(),
                code == key_code(key),
                match at {
                    Some(place) => place < self.keys@.len() && key_code(self.keys@[place as int])
                        == code && forall|i: int|
                        place < i < self.keys@.len() ==> #[trigger] self.keys@[i] != key,
                    None => forall|i: int|
                        0 <= i < self.keys@.len() ==> #[trigger] self.keys@[i] != key,
                },
            decreases (match at {
                Some(place) => place as int + 1,
                None => 0,
            }),
        {
            let place: usize = at.unwrap();
            if self.keys[place] == key {
                return Some(place);
            }
            proof {
                self.lemma_chain(code, place as int);
            }
            at = self.earlier[place];
        }
        None
    }

    /// The place of a key.
    pub fn find(&self, key: InfoKey) -> (r: Option<usize>)
        requires
            self.wf(),
        ensures
            r == some_place(latest(self@, key, self@.len())),
            match r {
                Some(place) => place < self@.len() && self@[place as int].key == key && place
                    == latest(self@, key, self@.len()),
                None => latest(self@, key, self@.len()) == -1,
            },
    {
        let found: Option<usize> = self.search(key);
        proof {
            let entries = self@;
            lemma_latest(entries, key, entries.len());
            assert forall|i: int| 0 <= i < entries.len() implies (#[trigger] entries[i]).key
                == self.keys@[i] by {}
        }
        found
    }

    /// Adds an entry at which nothing was learned yet.
    pub fn push(&mut self, key: InfoKey, facts: InfoFacts<S>)
        requires
            old(self).wf(),
        ensures
            final(self).wf(),
            final(self)@ == old(self)@.push(fresh(key, facts@)),
    {
        let code: u64 = code_of(key);
        let place: usize = self.keys.len();
        let count: usize = facts.actions.len();
        let head: Option<usize> = match self.heads.get(code) {
            Some(at) => Some(*at),
            None => None,
        };
        let ghost before = self@;
        let ghost keys = self.keys@;
        let ghost heads = self.heads@;
        let ghost view = facts@;
        assert(head == some_place(latest_code(keys, code, keys.len())));
        self.earlier.push(head);
        self.heads.insert(code, place);
        self.keys.push(key);
        self.facts.push(facts);
        self.regrets.push(nothing(count));
        self.sums.push(nothing(count));
        proof {
            let more = self.keys@;
            assert forall|i: int| 0 <= i < more.len() implies #[trigger] self.earlier@[i]
                == some_place(latest_code(more, key_code(more[i]), i as nat)) by {
                lemma_latest_code(keys, more, key_code(more[i]), i as nat);
            }
            assert forall|c: u64|
                #![trigger self.heads@.contains_key(c)]
                #![trigger latest_code(more, c, more.len())]
                (if self.heads@.contains_key(c) {
                    Some(self.heads@[c])
                } else {
                    None
                }) == some_place(latest_code(more, c, more.len())) by {
                lemma_latest_code(keys, more, c, keys.len());
                assert((if heads.contains_key(c) {
                    Some(heads[c])
                } else {
                    None
                }) == some_place(latest_code(keys, c, keys.len())));
            }
            assert(self@ =~= before.push(fresh(key, view))) by {
                let added = self@[place as int];
                assert(added.regrets =~= fresh(key, view).regrets);
                assert(added.sums =~= fresh(key, view).sums);
            }
        }
    }

    /// The regrets of an entry.
    pub fn regrets_at(&self, place: usize) -> (r: &Vec<S>)
        requires
            self.wf(),
            place < self@.len(),
        ensures
            r@ == self@[place as int].regrets,
    {
        &self.regrets[place]
    }

    /// The strategies of an entry added up.
    pub fn sums_at(&self, place: usize) -> (r: &Vec<S>)
        requires
            self.wf(),
            place < self@.len(),
        ensures
            r@ == self@[place as int].sums,
    {
        &self.sums[place]
    }

    /// The facts of an entry.
    pub fn facts_at(&self, place: usize) -> (r: &InfoFacts<S>)
        requires
            self.wf(),
            place < self@.len(),
        ensures
            r@ == self@[place as int].facts,
    {
        &self.facts[place]
    }

    /// The key of an entry.
    pub fn key_at(&self, place: usize) -> (r: InfoKey)
        requires
            self.wf(),
            place < self@.len(),
        ensures
            r == self@[place as int].key,
    {
        self.keys[place]
    }

    /// Replaces what was learned at an entry.
    pub fn set(&mut self, place: usize, regrets: Vec<S>, sums: Vec<S>)
        requires
            old(self).wf(),
            place < old(self)@.len(),
            regrets@.len() == old(self)@[place as int].facts.actions.len(),
            sums@.len() == old(self)@[place as int].facts.actions.len(),
        ensures
            final(self).wf(),
            final(self)@ == old(self)@.update(
                place as int,
                Entry { regrets: regrets@, sums: sums@, ..old(self)@[place as int] },
            ),
    {
        let ghost before = self@;
        self.regrets.set(place, regrets);
        self.sums.set(place, sums);
        assert(self@ =~= before.update(
            place as int,
            Entry { regrets: regrets@, sums: sums@, ..before[place as int] },
        ));
    }
}

fn nothing<S: Scalar>(count: usize) -> (r: Vec<S>)
    ensures
        r@ == Seq::new(count as nat, |i: int| S::zero_spec()),
{
    let mut values: Vec<S> = Vec::new();
    for i in 0..count
        invariant
            values@ =~= Seq::new(i as nat, |i: int| S::zero_spec()),
    {
        values.push(S::zero());
    }
    values
}

/// What an iteration is: its number and how it is weighed.
#[derive(Clone, Copy, Debug)]
pub struct Turn<S> {
    pub iteration: usize,
    pub average_weight: S,
    pub variant: CfrVariant,
}

/// How much more an action was worth than the decision, to the player who made it.
pub open spec fn regret_spec<S: Scalar>(player: Player, value: S, of_action: S) -> S {
    match player {
        Player::Oop => of_action.minus_spec(value),
        Player::Ip => value.minus_spec(of_action),
    }
}

/// An entry after an iteration: regrets grow by the other player's reach, strategies by the own.
/// Where fewer actions were taken than the entry has, the others stay as they were.
pub open spec fn learned<S: Scalar>(
    entry: Entry<S>,
    player: Player,
    reach: Sides<S>,
    strategy: Seq<S>,
    values: Seq<S>,
    value: S,
    turn: Turn<S>,
) -> Entry<S> {
    Entry {
        regrets: Seq::new(
            entry.regrets.len(),
            |i: int|
                {
                    let old = entry.regrets[i];
                    if i < values.len() {
                        old.times_spec(discount_spec(old, turn.iteration, turn.variant)).plus_spec(
                            reach.of_spec(player.other_spec()).times_spec(
                                regret_spec(player, value, values[i]),
                            ),
                        ).max_spec(S::zero_spec())
                    } else {
                        old
                    }
                },
        ),
        sums: Seq::new(
            entry.sums.len(),
            |i: int|
                if i < values.len() {
                    entry.sums[i].plus_spec(
                        turn.average_weight.times_spec(reach.of_spec(player)).times_spec(
                            strategy[i],
                        ),
                    )
                } else {
                    entry.sums[i]
                },
        ),
        ..entry
    }
}

impl<S: Scalar> InfoTable<S> {
    /// Learns from an iteration at an entry.
    pub fn learn(
        &mut self,
        place: usize,
        player: Player,
        reach: Sides<S>,
        strategy: &[S],
        values: &[S],
        value: S,
        turn: Turn<S>,
    )
        requires
            old(self).wf(),
            place < old(self)@.len(),
            strategy@.len() == values@.len(),
        ensures
            final(self).wf(),
            final(self)@ == old(self)@.update(
                place as int,
                learned(
                    old(self)@[place as int],
                    player,
                    reach,
                    strategy@,
                    values@,
                    value,
                    turn,
                ),
            ),
    {
        let ghost entry = self@[place as int];
        let ghost after = learned(entry, player, reach, strategy@, values@, value, turn);
        proof {
            self.wf_facts();
        }
        let against: S = reach.of(player.other());
        let own: S = turn.average_weight.times(reach.of(player));
        let mut regrets: Vec<S> = Vec::new();
        let mut sums: Vec<S> = Vec::new();
        let count: usize = self.regrets_at(place).len();
        for i in 0..count
            invariant
                self.wf(),
                place < self@.len(),
                self@ == old(self)@,
                entry == self@[place as int],
                entry.regrets.len() == count,
                entry.sums.len() == count,
                values@.len() == strategy@.len(),
                after == learned(entry, player, reach, strategy@, values@, value, turn),
                against == reach.of_spec(player.other_spec()),
                own == turn.average_weight.times_spec(reach.of_spec(player)),
                regrets@ =~= after.regrets.take(i as int),
                sums@ =~= after.sums.take(i as int),
        {
            let before: S = self.regrets_at(place)[i];
            let sum: S = self.sums_at(place)[i];
            if i < values.len() {
                let regret: S = match player {
                    Player::Oop => values[i].minus(value),
                    Player::Ip => value.minus(values[i]),
                };
                regrets.push(
                    before.times(regret_discount(before, turn.iteration, turn.variant)).plus(
                        against.times(regret),
                    ).max_of(S::zero()),
                );
                sums.push(sum.plus(own.times(strategy[i])));
            } else {
                regrets.push(before);
                sums.push(sum);
            }
            assert(after.regrets.take(i + 1) =~= after.regrets.take(i as int).push(
                after.regrets[i as int],
            ));
            assert(after.sums.take(i + 1) =~= after.sums.take(i as int).push(
                after.sums[i as int],
            ));
        }
        assert(regrets@ =~= after.regrets);
        assert(sums@ =~= after.sums);
        self.set(place, regrets, sums);
    }
}

/// Values with others added, as far as there are any.
pub open spec fn added<S: Scalar>(left: Seq<S>, right: Seq<S>) -> Seq<S> {
    Seq::new(
        left.len(),
        |i: int|
            if i < right.len() {
                left[i].plus_spec(right[i])
            } else {
                left[i]
            },
    )
}

fn add_values<S: Scalar>(left: &[S], right: &[S]) -> (r: Vec<S>)
    ensures
        r@ == added(left@, right@),
{
    let mut values: Vec<S> = Vec::new();
    for i in 0..left.len()
        invariant
            values@ =~= added(left@, right@).take(i as int),
    {
        values.push(
            if i < right.len() {
                left[i].plus(right[i])
            } else {
                left[i]
            },
        );
        assert(added(left@, right@).take(i + 1) =~= added(left@, right@).take(i as int).push(
            added(left@, right@)[i as int],
        ));
    }
    assert(values@ =~= added(left@, right@));
    values
}

/// An entry with what was learned at another added.
pub open spec fn entry_added<S: Scalar>(left: Entry<S>, right: Entry<S>) -> Entry<S> {
    Entry {
        regrets: added(left.regrets, right.regrets),
        sums: added(left.sums, right.sums),
        ..left
    }
}

/// The entries with the first `n` of others added: to those of the same key, or as new ones.
pub open spec fn merged<S: Scalar>(left: Seq<Entry<S>>, right: Seq<Entry<S>>, n: nat) -> Seq<Entry<S>>
    decreases n,
{
    if n == 0 {
        left
    } else {
        let front = merged(left, right, (n - 1) as nat);
        let entry = right[n - 1];
        let place = latest(front, entry.key, front.len());
        if place >= 0 {
            front.update(place, entry_added(front[place], entry))
        } else {
            front.push(entry_added(fresh(entry.key, entry.facts), entry))
        }
    }
}

impl<S: Scalar> InfoFacts<S> {
    fn copy(&self) -> (r: Self)
        ensures
            r@ == self@,
    {
        InfoFacts {
            node: self.node,
            player: self.player,
            board: copy_list(&self.board),
            history: copy_list(&self.history),
            combo: self.combo,
            equity: self.equity,
            actions: copy_list(&self.actions),
        }
    }
}

fn copy_list<T: Copy>(list: &[T]) -> (r: Vec<T>)
    ensures
        r@ == list@,
{
    let mut copy: Vec<T> = Vec::new();
    for i in 0..list.len()
        invariant
            copy@ =~= list@.take(i as int),
    {
        copy.push(list[i]);
    }
    assert(list@.take(list@.len() as int) =~= list@);
    copy
}

impl<S: Scalar> InfoTable<S> {
    /// Adds what was learned elsewhere.
    pub fn merge_from(&mut self, other: &InfoTable<S>)
        requires
            old(self).wf(),
            other.wf(),
        ensures
            final(self).wf(),
            final(self)@ == merged(old(self)@, other@, other@.len()),
    {
        let count: usize = other.len();
        for n in 0..count
            invariant
                count == other@.len(),
                self.wf(),
                other.wf(),
                self@ == merged(old(self)@, other@, n as nat),
        {
            let key: InfoKey = other.key_at(n);
            let ghost before = self@;
            let ghost entry = other@[n as int];
            let place: usize = match self.find(key) {
                Some(place) => place,
                None => {
                    let place: usize = self.len();
                    self.push(key, other.facts_at(n).copy());
                    place
                },
            };
            let regrets: Vec<S> = add_values(self.regrets_at(place), other.regrets_at(n));
            let sums: Vec<S> = add_values(self.sums_at(place), other.sums_at(n));
            let ghost known = self@;
            proof {
                self.wf_facts();
                lemma_latest(before, key, before.len());
            }
            self.set(place, regrets, sums);
            proof {
                let there = latest(before, key, before.len());
                if there >= 0 {
                    assert(self@ =~= before.update(there, entry_added(before[there], entry)));
                } else {
                    assert(known[place as int] == fresh(key, entry.facts));
                    assert(self@ =~= before.push(
                        entry_added(fresh(entry.key, entry.facts), entry),
                    ));
                }
            }
        }
    }
}

} // verus!
