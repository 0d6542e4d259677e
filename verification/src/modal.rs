//! The two modalities, computed on sets of states.

use crate::lts::Lts;
use crate::lts::State;
use crate::semantics::boxed;
use crate::semantics::diamond;
use std::collections::BTreeSet;
use vstd::prelude::*;

verus! {

/// Whether some state of `targets` is in `sat`.
fn any_in(targets: &Vec<State>, sat: &BTreeSet<State>) -> (r: bool)
    ensures
        r == exists|i: int| 0 <= i < targets@.len() && sat@.contains(targets@[i]),
{
    broadcast use vstd::std_specs::btree::group_btree_axioms;

    let mut i: usize = 0;
    while i < targets.len()
        invariant
            i <= targets.len(),
            forall|k: int| 0 <= k < i ==> !sat@.contains(targets@[k]),
        decreases targets.len() - i,
    {
        if sat.contains(&targets[i]) {
            return true;
        }
        i = i + 1;
    }
    false
}

/// Whether every state of `targets` is in `sat`.
fn all_in(targets: &Vec<State>, sat: &BTreeSet<State>) -> (r: bool)
    ensures
        r == forall|i: int| 0 <= i < targets@.len() ==> sat@.contains(targets@[i]),
{
    broadcast use vstd::std_specs::btree::group_btree_axioms;

    let mut i: usize = 0;
    while i < targets.len()
        invariant
            i <= targets.len(),
            forall|k: int| 0 <= k < i ==> sat@.contains(targets@[k]),
        decreases targets.len() - i,
    {
        if !sat.contains(&targets[i]) {
            return false;
        }
        i = i + 1;
    }
    true
}

/// The states with some transition labeled `step` into `sat`.
pub fn some_successor(lts: &Lts, step: &str, sat: &BTreeSet<State>) -> (r: BTreeSet<State>)
    requires
        lts.wf(),
    ensures
        r@ == diamond(lts@, step@, sat@),
{
    broadcast use vstd::std_specs::btree::group_btree_axioms;

    let rows = lts.step_transitions(step);
    let mut r: BTreeSet<State> = BTreeSet::new();
    let mut i: usize = 0;
    while i < rows.len()
        invariant
            i <= rows.len(),
            forall|k: int| 0 <= k < rows@.len() ==> (#[trigger] rows@[k]).1@ == lts@.targets(rows@[k].0, step@),
            forall|s: State|
                r@.contains(s) <==> exists|k: int|
                    0 <= k < i && rows@[k].0 == s && diamond(lts@, step@, sat@).contains(s),
            forall|k: int| 0 <= k < rows@.len() ==> lts@.states.contains(#[trigger] rows@[k].0),
        decreases rows.len() - i,
    {
        let hit = any_in(&rows[i].1, sat);
        if hit {
            r.insert(rows[i].0);
        }
        proof {
            let s = rows@[i as int].0;
            let t = rows@[i as int].1@;
            assert(t == lts@.targets(s, step@));
            if hit {
                let j = choose|j: int| 0 <= j < t.len() && sat@.contains(t[j]);
                assert(sat@.contains(lts@.targets(s, step@)[j]));
            }
        }
        i = i + 1;
    }
    proof {
        assert forall|s: State| r@.contains(s) <==> diamond(lts@, step@, sat@).contains(s) by {
            if diamond(lts@, step@, sat@).contains(s) {
                let k = choose|k: int| 0 <= k < rows@.len() && rows@[k].0 == s;
                assert(rows@[k].0 == s);
            }
        }
        assert(r@ =~= diamond(lts@, step@, sat@));
    }
    r
}

/// The states all of whose transitions labeled `step` lead into `sat`.
pub fn all_successors(lts: &Lts, step: &str, sat: &BTreeSet<State>) -> (r: BTreeSet<State>)
    requires
        lts.wf(),
    ensures
        r@ == boxed(lts@, step@, sat@),
{
    broadcast use vstd::std_specs::btree::group_btree_axioms;

    let rows = lts.step_transitions(step);
    let mut r: BTreeSet<State> = BTreeSet::new();
    let mut i: usize = 0;
    while i < rows.len()
        invariant
            i <= rows.len(),
            forall|k: int| 0 <= k < rows@.len() ==> (#[trigger] rows@[k]).1@ == lts@.targets(rows@[k].0, step@),
            forall|s: State|
                r@.contains(s) <==> exists|k: int|
                    0 <= k < i && rows@[k].0 == s && boxed(lts@, step@, sat@).contains(s),
            forall|k: int| 0 <= k < rows@.len() ==> lts@.states.contains(#[trigger] rows@[k].0),
        decreases rows.len() - i,
    {
        let hit = all_in(&rows[i].1, sat);
        if hit {
            r.insert(rows[i].0);
        }
        proof {
            let s = rows@[i as int].0;
            let t = rows@[i as int].1@;
            assert(t == lts@.targets(s, step@));
            if !hit {
                let j = choose|j: int| 0 <= j < t.len() && !sat@.contains(t[j]);
                assert(!sat@.contains(lts@.targets(s, step@)[j]));
            }
        }
        i = i + 1;
    }
    proof {
        assert forall|s: State| r@.contains(s) <==> boxed(lts@, step@, sat@).contains(s) by {
            if boxed(lts@, step@, sat@).contains(s) {
                let k = choose|k: int| 0 <= k < rows@.len() && rows@[k].0 == s;
                assert(rows@[k].0 == s);
            }
        }
        assert(r@ =~= boxed(lts@, step@, sat@));
    }
    r
}

} // verus!
