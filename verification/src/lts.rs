//! Labeled transition systems.

use crate::text::Order;
use crate::text::chars_of;
use crate::text::comes_before;
use crate::text::compare;
use crate::text::lemma_order_irreflexive;
use crate::text::lemma_order_transitive;
use std::collections::BTreeSet;
use std::collections::HashMap;
use vstd::prelude::*;
use vstd::std_specs::iter::IteratorSpec;

pub mod parser;

verus! {

/// Identifier of a state. State identifiers are 32-bit unsigned integers.
pub type State = u32;

/// Label of a transition.
pub type Label = String;

/// Mathematical content of a labeled transition system.
pub struct LtsView {
    /// The initial state.
    pub init: State,
    /// The set of states.
    pub states: Set<State>,
    /// The targets of the transitions, by source and label, in the order in
    /// which they were added.
    pub trans: Map<(State, Seq<char>), Seq<State>>,
}

impl LtsView {
    /// Targets reachable from `s` by one transition labeled `a`; empty when
    /// there is none.
    pub open spec fn targets(self, s: State, a: Seq<char>) -> Seq<State> {
        if self.trans.contains_key((s, a)) {
            self.trans[(s, a)]
        } else {
            Seq::empty()
        }
    }

    /// The set of states is finite, and sources and targets of all
    /// transitions are states.
    pub open spec fn wf(self) -> bool {
        &&& self.states.finite()
        &&& forall|s: State, a: Seq<char>| #[trigger]
            self.trans.contains_key((s, a)) ==> self.states.contains(s)
        &&& forall|s: State, a: Seq<char>, i: int|
            0 <= i < self.targets(s, a).len() ==> self.states.contains(
                #[trigger] self.targets(s, a)[i],
            )
    }
}

/// The transitions that carry one label, by source.
#[derive(Clone, Debug, PartialEq, Eq)]
struct Action {
    label: Vec<char>,
    succ: HashMap<State, Vec<State>>,
}

/// A labeled transition system.
#[derive(Clone, Debug, PartialEq, Eq)]
pub struct Lts {
    init: State,
    states: BTreeSet<State>,
    actions: Vec<Action>,
}

/// Position of the transitions labeled `a` among `actions`, if there are any.
spec fn position(actions: Seq<Action>, a: Seq<char>) -> Option<int> {
    if exists|i: int| 0 <= i < actions.len() && actions[i].label@ == a {
        Some(choose|i: int| 0 <= i < actions.len() && actions[i].label@ == a)
    } else {
        None
    }
}

/// The transition map that `actions` holds.
spec fn trans_of(actions: Seq<Action>) -> Map<(State, Seq<char>), Seq<State>> {
    Map::new(
        |k: (State, Seq<char>)|
            position(actions, k.1) matches Some(i) && actions[i].succ@.contains_key(k.0),
        |k: (State, Seq<char>)| actions[position(actions, k.1).unwrap()].succ@[k.0]@,
    )
}

/// With distinct labels, the transitions labeled `actions[i].label` stand at `i`.
proof fn lemma_position(actions: Seq<Action>, i: int)
    requires
        0 <= i < actions.len(),
        forall|i: int, j: int| 0 <= i < j < actions.len() ==> actions[i].label@ != actions[j].label@,
    ensures
        position(actions, actions[i].label@) == Some(i),
{
    let a = actions[i].label@;
    assert(0 <= i < actions.len() && actions[i].label@ == a);
    let j = choose|j: int| 0 <= j < actions.len() && actions[j].label@ == a;
    if j < i {
        assert(actions[j].label@ != actions[i].label@);
    } else if i < j {
        assert(actions[i].label@ != actions[j].label@);
    }
}

/// Effect on the transition map of one more target in the entry at `i`.
#[verifier::rlimit(30)]
proof fn lemma_trans_update(before: Seq<Action>, after: Seq<Action>, i: int, start: State, end: State)
    requires
        0 <= i < before.len(),
        after.len() == before.len(),
        forall|i: int, j: int| 0 <= i < j < before.len() ==> before[i].label@ != before[j].label@,
        forall|j: int| 0 <= j < before.len() ==> #[trigger] after[j].label@ == before[j].label@,
        forall|j: int| 0 <= j < before.len() && j != i ==> #[trigger] after[j].succ@ == before[j].succ@,
        after[i].succ@.dom() == before[i].succ@.dom().insert(start),
        forall|s: State| s != start && before[i].succ@.contains_key(s) ==> #[trigger] after[i].succ@[s] == before[i].succ@[s],
        after[i].succ@[start]@ == (if before[i].succ@.contains_key(start) {
            before[i].succ@[start]@
        } else {
            Seq::empty()
        }).push(end),
    ensures
        trans_of(after) == trans_of(before).insert(
            (start, before[i].label@),
            (if trans_of(before).contains_key((start, before[i].label@)) {
                trans_of(before)[(start, before[i].label@)]
            } else {
                Seq::empty()
            }).push(end),
        ),
{
    let a = before[i].label@;
    let t0 = trans_of(before);
    let t1 = trans_of(after);
    let old_targets = if t0.contains_key((start, a)) {
        t0[(start, a)]
    } else {
        Seq::empty()
    };
    let goal = t0.insert((start, a), old_targets.push(end));
    lemma_position(before, i);
    lemma_position(after, i);
    assert forall|k: (State, Seq<char>)| t1.contains_key(k) <==> goal.contains_key(k) by {
        lemma_position_same(before, after, k.1);
        if position(before, k.1) is Some {
            let j = position(before, k.1).unwrap();
            if j != i {
                assert(after[j].succ@ == before[j].succ@);
            }
        }
    }
    assert forall|k: (State, Seq<char>)| t1.contains_key(k) implies t1[k] == goal[k] by {
        lemma_position_same(before, after, k.1);
        let j = position(before, k.1).unwrap();
        if j != i {
            assert(after[j].succ@ == before[j].succ@);
        } else if k.0 != start {
            assert(before[i].succ@.contains_key(k.0));
        }
    }
    assert(t1 =~= goal);
}

/// Equal labels at equal places give equal positions.
proof fn lemma_position_same(before: Seq<Action>, after: Seq<Action>, a: Seq<char>)
    requires
        after.len() == before.len(),
        forall|j: int| 0 <= j < before.len() ==> #[trigger] after[j].label@ == before[j].label@,
        forall|i: int, j: int| 0 <= i < j < before.len() ==> before[i].label@ != before[j].label@,
    ensures
        position(after, a) == position(before, a),
        position(before, a) matches Some(j) ==> 0 <= j < before.len() && before[j].label@ == a,
{
    if exists|i: int| 0 <= i < before.len() && before[i].label@ == a {
        let j = choose|i: int| 0 <= i < before.len() && before[i].label@ == a;
        assert(after[j].label@ == a);
        assert forall|i: int, j: int| 0 <= i < j < after.len() implies after[i].label@ != after[j].label@ by {
            assert(after[i].label@ == before[i].label@);
            assert(after[j].label@ == before[j].label@);
        }
        lemma_position(before, j);
        lemma_position(after, j);
    } else {
        if exists|i: int| 0 <= i < after.len() && after[i].label@ == a {
            let j = choose|i: int| 0 <= i < after.len() && after[i].label@ == a;
            assert(before[j].label@ == a);
        }
    }
}

/// Effect on the transition map of a first transition with a new label,
/// whose entry is put at `p`.
#[verifier::rlimit(30)]
proof fn lemma_trans_extend(
    before: Seq<Action>,
    after: Seq<Action>,
    p: int,
    start: State,
    end: State,
)
    requires
        0 <= p <= before.len(),
        after.len() == before.len() + 1,
        forall|j: int| 0 <= j < p ==> after[j] == before[j],
        forall|j: int| p <= j < before.len() ==> after[j + 1] == before[j],
        forall|i: int, j: int| 0 <= i < j < before.len() ==> before[i].label@ != before[j].label@,
        forall|j: int| 0 <= j < before.len() ==> before[j].label@ != after[p].label@,
        after[p].succ@.dom() == Set::<State>::empty().insert(start),
        after[p].succ@[start]@ == Seq::<State>::empty().push(end),
    ensures
        forall|i: int, j: int| 0 <= i < j < after.len() ==> after[i].label@ != after[j].label@,
        !trans_of(before).contains_key((start, after[p].label@)),
        trans_of(after) == trans_of(before).insert(
            (start, after[p].label@),
            Seq::<State>::empty().push(end),
        ),
{
    let a = after[p].label@;
    let t0 = trans_of(before);
    let t1 = trans_of(after);
    let goal = t0.insert((start, a), Seq::<State>::empty().push(end));
    let old_place = |j: int| if j < p { j } else { j - 1 };
    let new_place = |j: int| if j < p { j } else { j + 1 };
    assert forall|i: int, j: int| 0 <= i < j < after.len() implies after[i].label@ != after[j].label@ by {
        if i != p && j != p {
            assert(after[i] == before[old_place(i)]);
            assert(after[j] == before[old_place(j)]);
            assert(before[old_place(i)].label@ != before[old_place(j)].label@);
        } else if i == p {
            assert(after[j] == before[old_place(j)]);
        } else {
            assert(after[i] == before[old_place(i)]);
        }
    }
    lemma_position(after, p);
    assert(position(before, a) is None);
    assert forall|k: (State, Seq<char>)|
        #![trigger t1.contains_key(k)]
        k.1 != a implies (t1.contains_key(k) <==> t0.contains_key(k)) && (t1.contains_key(k)
        ==> t1[k] == t0[k]) by {
        if exists|i: int| 0 <= i < before.len() && before[i].label@ == k.1 {
            let j = choose|i: int| 0 <= i < before.len() && before[i].label@ == k.1;
            assert(after[new_place(j)] == before[j]);
            lemma_position(before, j);
            lemma_position(after, new_place(j));
        } else {
            if exists|i: int| 0 <= i < after.len() && after[i].label@ == k.1 {
                let j = choose|i: int| 0 <= i < after.len() && after[i].label@ == k.1;
                assert(j != p);
                assert(after[j] == before[old_place(j)]);
            }
            assert(position(before, k.1) is None);
            assert(position(after, k.1) is None);
        }
    }
    assert forall|k: (State, Seq<char>)| t1.contains_key(k) <==> goal.contains_key(k) by {
        if k.1 == a {
            assert(after[p].succ@.dom().contains(k.0) <==> k.0 == start);
            assert(t1.contains_key(k) <==> k.0 == start);
            assert(!t0.contains_key(k));
            assert(k == (k.0, a));
        } else {
            assert(t1.contains_key(k) <==> t0.contains_key(k));
        }
    }
    assert forall|k: (State, Seq<char>)| t1.contains_key(k) implies t1[k] == goal[k] by {
        if k.1 == a {
            assert(after[p].succ@.dom().contains(k.0) <==> k.0 == start);
            assert(k == (start, a));
        } else {
            assert(t1.contains_key(k) ==> t1[k] == t0[k]);
        }
    }
    assert(t1 =~= goal);
}

impl View for Lts {
    type V = LtsView;

    closed spec fn view(&self) -> LtsView {
        LtsView { init: self.init, states: self.states@, trans: trans_of(self.actions@) }
    }
}

impl Default for Lts {
    /// The system without states and transitions, with initial state 0.
    fn default() -> (r: Self)
        ensures
            r.wf(),
            r@.init == 0,
            r@.states == Set::<State>::empty(),
            r@.trans == Map::<(State, Seq<char>), Seq<State>>::empty(),
    {
        let r = Lts { init: 0, states: BTreeSet::new(), actions: Vec::new() };
        assert(r@.trans =~= Map::<(State, Seq<char>), Seq<State>>::empty());
        r
    }
}

impl Lts {
    /// The system without states and transitions, with the initial state
    /// `init`.
    pub fn new(init: State) -> (r: Lts)
        ensures
            r.wf(),
            r@.init == init,
            r@.states == Set::<State>::empty(),
            r@.trans == Map::<(State, Seq<char>), Seq<State>>::empty(),
    {
        let r = Lts { init, states: BTreeSet::new(), actions: Vec::new() };
        assert(r@.trans =~= Map::<(State, Seq<char>), Seq<State>>::empty());
        r
    }

    /// Makes `s` a state.
    pub fn add_state(&mut self, s: State)
        requires
            old(self).wf(),
        ensures
            final(self).wf(),
            final(self)@.init == old(self)@.init,
            final(self)@.states == old(self)@.states.insert(s),
            final(self)@.trans == old(self)@.trans,
    {
        broadcast use vstd::std_specs::btree::group_btree_axioms;

        self.states.insert(s);
    }

    /// The representation is consistent: the labels stand in the order of
    /// the dictionary, none twice, and the sources and targets of all
    /// transitions are states.
    pub closed spec fn wf(self) -> bool {
        &&& forall|i: int, j: int|
            0 <= i < j < self.actions.len() ==> comes_before(
                self.actions[i].label@,
                self.actions[j].label@,
            )
        &&& forall|i: int, j: int|
            0 <= i < j < self.actions.len() ==> self.actions[i].label@ != self.actions[j].label@
        &&& forall|i: int, s: State|
            0 <= i < self.actions.len() && #[trigger] self.actions[i].succ@.contains_key(s)
                ==> self.states@.contains(s)
        &&& forall|i: int, s: State, k: int|
            0 <= i < self.actions.len() && self.actions[i].succ@.contains_key(s) && 0 <= k
                < self.actions[i].succ@[s].len() ==> self.states@.contains(
                #[trigger] self.actions[i].succ@[s]@[k],
            )
    }

    /// The set of states.
    pub fn states(&self) -> (r: &BTreeSet<State>)
        ensures
            r@ == self@.states,
    {
        &self.states
    }

    /// The initial state.
    pub fn init(&self) -> (r: State)
        ensures
            r == self@.init,
    {
        self.init
    }

    /// The place of the transitions labeled `label`, and whether there
    /// are any: if not, the place where they belong.
    fn place(&self, label: &Vec<char>) -> (r: (usize, bool))
        requires
            self.wf(),
        ensures
            r.0 <= self.actions.len(),
            forall|i: int| 0 <= i < r.0 ==> comes_before(self.actions[i].label@, label@),
            forall|i: int| r.0 < i < self.actions.len() ==> comes_before(label@, self.actions[i].label@),
            r.1 ==> r.0 < self.actions.len() && self.actions[r.0 as int].label@ == label@,
            !r.1 ==> (r.0 < self.actions.len() ==> comes_before(
                label@,
                self.actions[r.0 as int].label@,
            )),
            !r.1 ==> forall|i: int|
                0 <= i < self.actions.len() ==> self.actions[i].label@ != label@,
    {
        let mut i: usize = 0;
        while i < self.actions.len()
            invariant
                self.wf(),
                i <= self.actions.len(),
                forall|j: int| 0 <= j < i ==> comes_before(self.actions[j].label@, label@),
            decreases self.actions.len() - i,
        {
            match compare(&self.actions[i].label, label) {
                Order::Before => {
                    i = i + 1;
                },
                Order::Same => {
                    proof {
                        assert forall|j: int| i < j < self.actions.len() implies comes_before(
                            label@,
                            self.actions[j].label@,
                        ) by {
                            assert(comes_before(self.actions[i as int].label@, self.actions[j].label@));
                        }
                    }
                    return (i, true);
                },
                Order::After => {
                    proof {
                        self.lemma_behind(label@, i as int);
                    }
                    return (i, false);
                },
            }
        }
        proof {
            self.lemma_behind(label@, i as int);
        }
        (i, false)
    }

    /// Where `label` comes behind all labels before `p` and before the
    /// label at `p`, it comes before all from `p` on and is none of the
    /// labels.
    proof fn lemma_behind(self, label: Seq<char>, p: int)
        requires
            self.wf(),
            0 <= p <= self.actions.len(),
            forall|j: int| 0 <= j < p ==> comes_before(self.actions[j].label@, label),
            p < self.actions.len() ==> comes_before(label, self.actions[p].label@),
        ensures
            forall|i: int| p <= i < self.actions.len() ==> comes_before(label, self.actions[i].label@),
            forall|i: int| 0 <= i < self.actions.len() ==> self.actions[i].label@ != label,
    {
        assert forall|i: int| p <= i < self.actions.len() implies comes_before(
            label,
            self.actions[i].label@,
        ) by {
            if i > p {
                assert(comes_before(self.actions[p].label@, self.actions[i].label@));
                lemma_order_transitive(label, self.actions[p].label@, self.actions[i].label@);
            }
        }
        assert forall|i: int| 0 <= i < self.actions.len() implies self.actions[i].label@
            != label by {
            if i < p {
                lemma_order_irreflexive(self.actions[i].label@, label);
            } else {
                lemma_order_irreflexive(label, self.actions[i].label@);
            }
        }
    }

    /// Adds a transition from `start` to `end` labeled `label`; both ends
    /// become states.
    #[verifier::rlimit(30)]
    pub fn add_edge(&mut self, start: State, label: &str, end: State)
        requires
            old(self).wf(),
        ensures
            final(self).wf(),
            final(self)@.init == old(self)@.init,
            final(self)@.states == old(self)@.states.insert(start).insert(end),
            final(self)@.trans == old(self)@.trans.insert(
                (start, label@),
                old(self)@.targets(start, label@).push(end),
            ),
    {
        broadcast use vstd::std_specs::btree::group_btree_axioms;
        broadcast use vstd::std_specs::hash::group_hash_axioms;

        let ghost before = *self;
        let name = chars_of(label);
        let (p, found) = self.place(&name);
        self.states.insert(start);
        self.states.insert(end);
        if found {
            let mut act = self.actions.remove(p);
            let mut targets: Vec<State> = match act.succ.remove(&start) {
                Some(v) => v,
                None => Vec::new(),
            };
            targets.push(end);
            act.succ.insert(start, targets);
            assert(act.succ@.dom() =~= before.actions[p as int].succ@.dom().insert(start));
            self.actions.insert(p, act);
            proof {
                lemma_trans_update(before.actions@, self.actions@, p as int, start, end);
                assert forall|i: int, j: int| 0 <= i < j < self.actions.len() implies comes_before(
                    self.actions[i].label@,
                    self.actions[j].label@,
                ) by {
                    assert(self.actions[i].label@ == before.actions[i].label@);
                    assert(self.actions[j].label@ == before.actions[j].label@);
                }
            }
        } else {
            let mut succ: HashMap<State, Vec<State>> = HashMap::new();
            let mut targets: Vec<State> = Vec::new();
            targets.push(end);
            succ.insert(start, targets);
            self.actions.insert(p, Action { label: name, succ });
            proof {
                lemma_trans_extend(before.actions@, self.actions@, p as int, start, end);
                assert forall|i: int, j: int| 0 <= i < j < self.actions.len() implies comes_before(
                    self.actions[i].label@,
                    self.actions[j].label@,
                ) by {
                    if i < p && j > p {
                        assert(comes_before(before.actions[i].label@, before.actions[j - 1].label@));
                    } else if i > p {
                        assert(comes_before(
                            before.actions[i - 1].label@,
                            before.actions[j - 1].label@,
                        ));
                    } else if j < p {
                        assert(comes_before(before.actions[i].label@, before.actions[j].label@));
                    }
                }
            }
        }
    }

    /// For every state, in ascending order, the state and the targets of
    /// its transitions labeled `step`. A state without such a transition
    /// comes with no target.
    #[verifier::rlimit(30)]
    pub fn step_transitions(&self, step: &str) -> (r: Vec<(State, Vec<State>)>)
        requires
            self.wf(),
        ensures
            r@.len() == self@.states.len(),
            forall|i: int, j: int| 0 <= i < j < r@.len() ==> r@[i].0 < r@[j].0,
            forall|s: State|
                self@.states.contains(s) <==> exists|i: int| 0 <= i < r@.len() && r@[i].0 == s,
            forall|i: int| 0 <= i < r@.len() ==> (#[trigger] r@[i]).1@ == self@.targets(r@[i].0, step@),
    {
        broadcast use vstd::std_specs::hash::group_hash_axioms;

        let owned = chars_of(step);
        let (place, present) = self.place(&owned);
        let found: Option<usize> = if present {
            Some(place)
        } else {
            None
        };
        let sources: Vec<State> = crate::sets::elements(&self.states);
        let mut out: Vec<(State, Vec<State>)> = Vec::new();
        let mut i: usize = 0;
        while i < sources.len()
            invariant
                i <= sources.len(),
                self.wf(),
                out@.len() == i,
                owned@ == step@,
                match found {
                    Some(a) => a < self.actions.len() && self.actions[a as int].label@ == owned@,
                    None => forall|k: int|
                        0 <= k < self.actions.len() ==> self.actions[k].label@ != owned@,
                },
                forall|k: int| 0 <= k < i ==> (#[trigger] out@[k]).0 == sources@[k],
                forall|k: int| 0 <= k < i ==> (#[trigger] out@[k]).1@ == self@.targets(out@[k].0, step@),
            decreases sources.len() - i,
        {
            let s: State = sources[i];
            let targets: Vec<State> = match found {
                Some(a) => {
                    proof {
                        lemma_position(self.actions@, a as int);
                    }
                    match self.actions[a].succ.get(&s) {
                        Some(v) => v.clone(),
                        None => Vec::new(),
                    }
                },
                None => Vec::new(),
            };
            assert(targets@ =~= self@.targets(s, step@));
            out.push((s, targets));
            i = i + 1;
        }
        proof {
            assert forall|s: State| self@.states.contains(s) implies exists|i: int|
                0 <= i < out@.len() && out@[i].0 == s by {
                assert(sources@.to_set().contains(s));
                let k = choose|k: int| 0 <= k < sources@.len() && sources@[k] == s;
                assert(out@[k].0 == s);
            }
            assert forall|s: State| (exists|i: int| 0 <= i < out@.len() && out@[i].0 == s)
                implies self@.states.contains(s) by {
                let k = choose|k: int| 0 <= k < out@.len() && out@[k].0 == s;
                assert(sources@[k] == s);
                assert(sources@.to_set().contains(s));
            }
        }
        out
    }

    /// A consistent system has a well-formed content.
    pub proof fn lemma_view_wf(self)
        requires
            self.wf(),
        ensures
            self@.wf(),
    {
        broadcast use vstd::std_specs::btree::group_btree_axioms;
        assert(self.states@.finite()) by {
            let r = self.states.iter().remaining();
            vstd::seq_lib::seq_to_set_is_finite(r.unref());
        }
        assert forall|s: State, a: Seq<char>| #[trigger]
            self@.trans.contains_key((s, a)) implies self@.states.contains(s) by {
            let i = position(self.actions@, a).unwrap();
            assert(self.actions[i].succ@.contains_key(s));
        }
        assert forall|s: State, a: Seq<char>, k: int|
            0 <= k < self@.targets(s, a).len() implies self@.states.contains(
            #[trigger] self@.targets(s, a)[k],
        ) by {
            let i = position(self.actions@, a).unwrap();
            assert(self.actions[i].succ@.contains_key(s));
            assert(self@.targets(s, a)[k] == self.actions[i].succ@[s]@[k]);
        }
    }
}

} // verus!
