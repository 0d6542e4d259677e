//! Environments: the sets of states that the fixed-point variables stand
//! for during an evaluation.

use crate::lts::LtsView;
use crate::lts::State;
use crate::mu_calculus::Formula;
use crate::mu_calculus::VarName;
use crate::semantics::Valuation;
use std::collections::BTreeSet;
use std::collections::HashMap;
use vstd::prelude::*;

verus! {

/// A finite map from variables to sets of states.
pub struct Env {
    slots: HashMap<u32, BTreeSet<State>>,
}

impl View for Env {
    type V = Valuation;

    closed spec fn view(&self) -> Valuation {
        Map::new(
            |x: VarName| self.slots@.contains_key(x as u32),
            |x: VarName| self.slots@[x as u32]@,
        )
    }
}

/// Every bound variable stands for a set of states of `l`.
pub open spec fn within(l: LtsView, e: Valuation) -> bool {
    forall|x: VarName| e.contains_key(x) ==> (#[trigger] e[x]).subset_of(l.states)
}

/// Every variable bound in `before` is bound in `after`, and to the same
/// set unless it is among `changed`.
pub open spec fn kept(before: Valuation, after: Valuation, changed: Set<VarName>) -> bool {
    forall|x: VarName| #[trigger]
        before.contains_key(x) ==> after.contains_key(x) && (!changed.contains(x) ==> after[x]
            == before[x])
}

/// While a fixed point of `body` in `var` is iterated, the environment
/// `now` is the one of the start, `at_start`, but for `var` and for what
/// the body binds.
pub open spec fn tracks(at_start: Valuation, now: Valuation, var: VarName, body: Formula) -> bool {
    forall|x: VarName| #[trigger]
        at_start.contains_key(x) && x != var ==> now.contains_key(x) && (!body.declared().contains(
            x,
        ) ==> now[x] == at_start[x])
}

/// Giving a variable a set of states keeps an environment within the
/// states.
pub proof fn lemma_within_insert(l: LtsView, e: Valuation, var: VarName, v: Set<State>)
    requires
        within(l, e),
        v.subset_of(l.states),
    ensures
        within(l, e.insert(var, v)),
{
    assert forall|x: VarName| e.insert(var, v).contains_key(x) implies (#[trigger] e.insert(var, v)[x]).subset_of(
        l.states,
    ) by {
        if x != var {
            assert(e.contains_key(x));
            assert(e[x].subset_of(l.states));
        }
    }
}

/// The environment still tracks that of the start after the body was
/// evaluated and the variable was given the result.
pub proof fn lemma_tracks(
    at_start: Valuation,
    before: Valuation,
    middle: Valuation,
    after: Valuation,
    var: VarName,
    body: Formula,
    cur: Set<State>,
    new: Set<State>,
)
    requires
        tracks(at_start, before, var, body),
        before.contains_key(var),
        before[var] == cur,
        !body.declared().contains(var),
        kept(before, middle, body.declared()),
        after == middle.insert(var, new),
    ensures
        tracks(at_start, after, var, body),
        middle.contains_key(var),
        middle[var] == cur,
        kept(at_start, after, body.declared().insert(var)),
{
    assert forall|x: VarName| #[trigger]
        at_start.contains_key(x) && x != var implies after.contains_key(x) && (
    !body.declared().contains(x) ==> after[x] == at_start[x]) by {
        assert(before.contains_key(x));
    }
    assert forall|x: VarName| #[trigger] at_start.contains_key(x) implies after.contains_key(x) && (
    !body.declared().insert(var).contains(x) ==> after[x] == at_start[x]) by {
        if x != var {
            assert(at_start.contains_key(x) && x != var);
        }
    }
}

/// Distinct variables have distinct codes.
proof fn lemma_codes_differ(x: VarName, y: VarName)
    requires
        x != y,
    ensures
        x as u32 != y as u32,
{
}

impl Env {
    /// The environment that binds no variable.
    pub fn new() -> (r: Env)
        ensures
            r@ == Map::<VarName, Set<State>>::empty(),
    {
        let r = Env { slots: HashMap::new() };
        assert(r@ =~= Map::<VarName, Set<State>>::empty());
        r
    }

    /// Whether `x` is bound.
    pub fn contains(&self, x: VarName) -> (r: bool)
        ensures
            r == self@.contains_key(x),
    {
        broadcast use vstd::std_specs::hash::group_hash_axioms;

        self.slots.contains_key(&(x as u32))
    }

    /// The set that `x` stands for.
    pub fn get(&self, x: VarName) -> (r: &BTreeSet<State>)
        requires
            self@.contains_key(x),
        ensures
            r@ == self@[x],
    {
        broadcast use vstd::std_specs::hash::group_hash_axioms;

        match self.slots.get(&(x as u32)) {
            Some(v) => v,
            None => vstd::pervasive::unreached(),
        }
    }

    /// Lets `x` stand for `v`, and returns the set that it stood for.
    pub fn insert(&mut self, x: VarName, v: BTreeSet<State>) -> (r: Option<BTreeSet<State>>)
        ensures
            final(self)@ == old(self)@.insert(x, v@),
            match r {
                Some(p) => old(self)@.contains_key(x) && p@ == old(self)@[x],
                None => !old(self)@.contains_key(x),
            },
    {
        broadcast use vstd::std_specs::hash::group_hash_axioms;

        let ghost before = self@;
        let ghost value = v@;
        let r = self.slots.insert(x as u32, v);
        proof {
            assert forall|y: VarName| #[trigger] self@.contains_key(y) <==> before.insert(x, value).contains_key(y) by {
                if y != x {
                    lemma_codes_differ(x, y);
                }
            }
            assert forall|y: VarName| self@.contains_key(y) implies #[trigger] self@[y] == before.insert(x, value)[y] by {
                if y != x {
                    lemma_codes_differ(x, y);
                }
            }
            assert(self@ =~= before.insert(x, value));
        }
        r
    }
}

} // verus!
