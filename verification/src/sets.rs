//! Operations on finite sets of states, which serve sets of other numbers
//! of 32 bits as well.

use crate::lts::State;
use std::collections::BTreeSet;
use vstd::prelude::*;
use vstd::std_specs::btree::increasing_seq;
use vstd::std_specs::cmp::OrdSpec;
use vstd::std_specs::iter::IteratorSpec;

verus! {

/// A set of states that a program holds is finite.
pub proof fn lemma_finite(set: BTreeSet<State>)
    ensures
        set@.finite(),
{
    broadcast use vstd::std_specs::btree::group_btree_axioms;

    vstd::seq_lib::seq_to_set_is_finite(set.iter().remaining().unref());
}

/// What a set of states yields in its own order ascends.
proof fn lemma_ascending(s: Seq<&State>)
    requires
        increasing_seq(s),
    ensures
        forall|i: int, j: int| 0 <= i < j < s.len() ==> *s[i] < *s[j],
{
    broadcast use vstd::laws_cmp::group_laws_cmp;
    broadcast use vstd::laws_cmp::lemma_ref_obeys_cmp_spec;

    assert(vstd::laws_cmp::obeys_cmp::<State>());
    assert(vstd::laws_cmp::obeys_cmp::<&State>());
    vstd::std_specs::btree::axiom_increasing_seq_meaning(s);
    assert forall|i: int, j: int| 0 <= i < j < s.len() implies *s[i] < *s[j] by {
        assert(OrdSpec::cmp_spec(&s[i], &s[j]) is Less);
    }
}

/// The elements of `set`, each once, in ascending order.
pub fn elements(set: &BTreeSet<State>) -> (v: Vec<State>)
    ensures
        v@.to_set() == set@,
        v@.no_duplicates(),
        v@.len() == set@.len(),
        set@.finite(),
        forall|i: int, j: int| 0 <= i < j < v@.len() ==> v@[i] < v@[j],
{
    broadcast use vstd::std_specs::btree::group_btree_axioms;

    let ghost all = set.iter().remaining();
    let mut v: Vec<State> = Vec::new();
    for x in it: set.iter()
        invariant
            it.seq() == all,
            v@ == all.take(it.index()).unref(),
    {
        v.push(*x);
        assert(all.take(it.index() + 1).unref() =~= all.take(it.index()).unref().push(*x));
    }
    proof {
        assert(all.take(all.len() as int) =~= all);
        assert(v@ == all.unref());
        vstd::seq_lib::seq_to_set_is_finite(v@);
        lemma_ascending(all);
    }
    v
}

/// The states that are in both `a` and `b`.
pub fn intersection(a: &BTreeSet<State>, b: &BTreeSet<State>) -> (r: BTreeSet<State>)
    ensures
        r@ == a@.intersect(b@),
{
    broadcast use vstd::std_specs::btree::group_btree_axioms;

    let items: Vec<State> = elements(a);
    let mut r: BTreeSet<State> = BTreeSet::new();
    let mut i: usize = 0;
    while i < items.len()
        invariant
            i <= items.len(),
            items@.to_set() == a@,
            forall|s: State|
                r@.contains(s) <==> b@.contains(s) && exists|k: int| 0 <= k < i && items@[k] == s,
        decreases items.len() - i,
    {
        let x: State = items[i];
        if b.contains(&x) {
            r.insert(x);
        }
        i = i + 1;
    }
    proof {
        assert forall|s: State| r@.contains(s) <==> a@.intersect(b@).contains(s) by {
            if a@.contains(s) {
                assert(items@.to_set().contains(s));
            }
            if r@.contains(s) {
                let k = choose|k: int| 0 <= k < items@.len() && items@[k] == s;
                assert(items@.to_set().contains(items@[k]));
            }
        }
        assert(r@ =~= a@.intersect(b@));
    }
    r
}

/// The states that are in `a` or in `b`.
pub fn union(a: &BTreeSet<State>, b: &BTreeSet<State>) -> (r: BTreeSet<State>)
    ensures
        r@ == a@.union(b@),
{
    broadcast use vstd::std_specs::btree::group_btree_axioms;

    let items: Vec<State> = elements(b);
    let mut r: BTreeSet<State> = a.clone();
    let mut i: usize = 0;
    while i < items.len()
        invariant
            i <= items.len(),
            items@.to_set() == b@,
            forall|s: State|
                r@.contains(s) <==> a@.contains(s) || exists|k: int| 0 <= k < i && items@[k] == s,
        decreases items.len() - i,
    {
        let x: State = items[i];
        r.insert(x);
        i = i + 1;
    }
    proof {
        assert forall|s: State| r@.contains(s) <==> a@.union(b@).contains(s) by {
            if b@.contains(s) {
                assert(items@.to_set().contains(s));
            }
            if r@.contains(s) && !a@.contains(s) {
                let k = choose|k: int| 0 <= k < items@.len() && items@[k] == s;
                assert(items@.to_set().contains(items@[k]));
            }
        }
        assert(r@ =~= a@.union(b@));
    }
    r
}

/// Whether `a` and `b` hold the same states.
pub fn equal(a: &BTreeSet<State>, b: &BTreeSet<State>) -> (r: bool)
    ensures
        r == (a@ == b@),
{
    broadcast use vstd::std_specs::btree::group_btree_axioms;

    if a.len() != b.len() {
        return false;
    }
    let items: Vec<State> = elements(a);
    let mut i: usize = 0;
    while i < items.len()
        invariant
            i <= items.len(),
            items@.to_set() == a@,
            forall|k: int| 0 <= k < i ==> b@.contains(items@[k]),
        decreases items.len() - i,
    {
        if !b.contains(&items[i]) {
            proof {
                assert(items@.to_set().contains(items@[i as int]));
            }
            return false;
        }
        i = i + 1;
    }
    proof {
        assert(a@.subset_of(b@)) by {
            assert forall|s: State| a@.contains(s) implies b@.contains(s) by {
                assert(items@.to_set().contains(s));
            }
        }
        lemma_finite(*b);
        vstd::set_lib::lemma_subset_equality(a@, b@);
    }
    true
}

/// Whether every state of `a` is in `b`.
pub fn subset(a: &BTreeSet<State>, b: &BTreeSet<State>) -> (r: bool)
    ensures
        r == a@.subset_of(b@),
{
    broadcast use vstd::std_specs::btree::group_btree_axioms;

    let items: Vec<State> = elements(a);
    let mut i: usize = 0;
    while i < items.len()
        invariant
            i <= items.len(),
            items@.to_set() == a@,
            forall|k: int| 0 <= k < i ==> b@.contains(items@[k]),
        decreases items.len() - i,
    {
        if !b.contains(&items[i]) {
            proof {
                assert(items@.to_set().contains(items@[i as int]));
            }
            return false;
        }
        i = i + 1;
    }
    proof {
        assert forall|s: State| a@.contains(s) implies b@.contains(s) by {
            assert(items@.to_set().contains(s));
        }
    }
    true
}

/// Whether no state is both in `a` and in `b`.
pub fn disjoint(a: &BTreeSet<State>, b: &BTreeSet<State>) -> (r: bool)
    ensures
        r == a@.disjoint(b@),
{
    broadcast use vstd::std_specs::btree::group_btree_axioms;

    let items: Vec<State> = elements(a);
    let mut i: usize = 0;
    while i < items.len()
        invariant
            i <= items.len(),
            items@.to_set() == a@,
            forall|k: int| 0 <= k < i ==> !b@.contains(items@[k]),
        decreases items.len() - i,
    {
        if b.contains(&items[i]) {
            proof {
                assert(items@.to_set().contains(items@[i as int]));
            }
            return false;
        }
        i = i + 1;
    }
    proof {
        assert forall|s: State| !(a@.contains(s) && b@.contains(s)) by {
            if a@.contains(s) {
                assert(items@.to_set().contains(s));
            }
        }
    }
    true
}

} // verus!
