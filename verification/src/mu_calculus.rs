//! Formulas of the modal mu-calculus and their depth measures.

use crate::sets::subset;
use crate::sets::union;
use std::collections::BTreeSet;
use vstd::prelude::*;

pub mod metrics;
pub mod parser;
pub mod print;
pub mod roundtrip;
pub mod scope;

verus! {

/// Name of a fixed-point variable.
pub type VarName = char;

/// A formula of the modal mu-calculus.
#[derive(Debug, PartialEq, Eq)]
pub enum Formula {
    False,
    True,
    Var { name: VarName },
    And { f1: Box<Formula>, f2: Box<Formula> },
    Or { f1: Box<Formula>, f2: Box<Formula> },
    Diamond { step: String, f: Box<Formula> },
    Box { step: String, f: Box<Formula> },
    Mu { var: VarName, f: Box<Formula> },
    Nu { var: VarName, f: Box<Formula> },
}

/// A formula as a tree over plain values: the labels are sequences of
/// characters.
pub enum FormulaView {
    False,
    True,
    Var { name: VarName },
    And { f1: Box<FormulaView>, f2: Box<FormulaView> },
    Or { f1: Box<FormulaView>, f2: Box<FormulaView> },
    Diamond { step: Seq<char>, f: Box<FormulaView> },
    Box { step: Seq<char>, f: Box<FormulaView> },
    Mu { var: VarName, f: Box<FormulaView> },
    Nu { var: VarName, f: Box<FormulaView> },
}

impl View for Formula {
    type V = FormulaView;

    open spec fn view(&self) -> FormulaView {
        self.tree()
    }
}

/// A walk over the subformulas of a formula: the formula first, then, of a
/// formula with two parts, the second part with its subformulas before the
/// first.
#[derive(Clone, Debug)]
pub struct Subformulas<'a> {
    children: Vec<&'a Formula>,
}

/// The variables of a formula, by their codes: those that a binder binds
/// and those that occur.
#[derive(Clone, Debug, Default)]
pub struct Variables {
    pub(crate) declared: BTreeSet<u32>,
    pub(crate) used: BTreeSet<u32>,
}

/// The code of a variable.
pub open spec fn code(x: VarName) -> u32 {
    x as u32
}

/// The codes of the variables among `vars`.
pub open spec fn codes(vars: Set<VarName>) -> Set<u32> {
    Set::new(|k: u32| exists|x: VarName| vars.contains(x) && #[trigger] code(x) == k)
}

/// Variables with the same code are the same.
pub proof fn lemma_code_tells(x: VarName, y: VarName)
    requires
        code(x) == code(y),
    ensures
        x == y,
{
}

/// The code of a variable is among the codes of just the sets of
/// variables that the variable is in.
pub proof fn lemma_codes_contains(vars: Set<VarName>, x: VarName)
    ensures
        codes(vars).contains(code(x)) <==> vars.contains(x),
{
    if codes(vars).contains(code(x)) {
        let y = choose|y: VarName| vars.contains(y) && code(y) == code(x);
        lemma_code_tells(x, y);
    }
}

/// The codes of no variables, of one variable more, of one variable less
/// and of the variables of two sets.
pub proof fn lemma_codes(a: Set<VarName>, b: Set<VarName>, x: VarName)
    ensures
        codes(Set::<VarName>::empty()) =~= Set::<u32>::empty(),
        codes(a.insert(x)) =~= codes(a).insert(code(x)),
        codes(a.remove(x)) =~= codes(a).remove(code(x)),
        codes(a.union(b)) =~= codes(a).union(codes(b)),
{
    assert forall|k: u32| codes(a.insert(x)).contains(k) <==> codes(a).insert(code(x)).contains(
        k,
    ) by {
        if codes(a.insert(x)).contains(k) {
            let y = choose|y: VarName| a.insert(x).contains(y) && code(y) == k;
            if y != x {
                assert(a.contains(y) && code(y) == k);
            }
        }
        if codes(a).contains(k) {
            let y = choose|y: VarName| a.contains(y) && code(y) == k;
            assert(a.insert(x).contains(y) && code(y) == k);
        }
        if k == code(x) {
            assert(a.insert(x).contains(x) && code(x) == k);
        }
    }
    assert forall|k: u32| codes(a.remove(x)).contains(k) <==> codes(a).remove(code(x)).contains(
        k,
    ) by {
        if codes(a.remove(x)).contains(k) {
            let y = choose|y: VarName| a.remove(x).contains(y) && code(y) == k;
            assert(a.contains(y) && code(y) == k);
            if k == code(x) {
                lemma_code_tells(x, y);
            }
        }
        if codes(a).contains(k) && k != code(x) {
            let y = choose|y: VarName| a.contains(y) && code(y) == k;
            assert(a.remove(x).contains(y) && code(y) == k);
        }
    }
    assert forall|k: u32| codes(a.union(b)).contains(k) <==> codes(a).union(codes(b)).contains(
        k,
    ) by {
        if codes(a.union(b)).contains(k) {
            let y = choose|y: VarName| a.union(b).contains(y) && code(y) == k;
            if a.contains(y) {
                assert(a.contains(y) && code(y) == k);
            } else {
                assert(b.contains(y) && code(y) == k);
            }
        }
        if codes(a).contains(k) {
            let y = choose|y: VarName| a.contains(y) && code(y) == k;
            assert(a.union(b).contains(y) && code(y) == k);
        }
        if codes(b).contains(k) {
            let y = choose|y: VarName| b.contains(y) && code(y) == k;
            assert(a.union(b).contains(y) && code(y) == k);
        }
    }
}

/// Sets of variables include one another, and have nothing in common,
/// just where the sets of their codes do.
pub proof fn lemma_codes_compare(a: Set<VarName>, b: Set<VarName>)
    ensures
        codes(a).subset_of(codes(b)) <==> a.subset_of(b),
        codes(a).disjoint(codes(b)) <==> a.disjoint(b),
        codes(a) =~= Set::<u32>::empty() <==> a =~= Set::<VarName>::empty(),
{
    if a.subset_of(b) {
        assert forall|k: u32| codes(a).contains(k) implies codes(b).contains(k) by {
            let y = choose|y: VarName| a.contains(y) && code(y) == k;
            assert(b.contains(y) && code(y) == k);
        }
    }
    if codes(a).subset_of(codes(b)) {
        assert forall|x: VarName| a.contains(x) implies b.contains(x) by {
            lemma_codes_contains(a, x);
            lemma_codes_contains(b, x);
        }
    }
    if a.disjoint(b) {
        assert forall|k: u32| !(codes(a).contains(k) && codes(b).contains(k)) by {
            if codes(a).contains(k) && codes(b).contains(k) {
                let y = choose|y: VarName| a.contains(y) && code(y) == k;
                let z = choose|z: VarName| b.contains(z) && code(z) == k;
                lemma_code_tells(y, z);
            }
        }
    }
    if codes(a).disjoint(codes(b)) {
        assert forall|x: VarName| !(a.contains(x) && b.contains(x)) by {
            lemma_codes_contains(a, x);
            lemma_codes_contains(b, x);
        }
    }
    if codes(a) =~= Set::<u32>::empty() {
        assert forall|x: VarName| !a.contains(x) by {
            lemma_codes_contains(a, x);
        }
    }
    if a =~= Set::<VarName>::empty() {
        assert forall|k: u32| !codes(a).contains(k) by {}
    }
}

/// What a walk that still has `stack` to visit, top last, will yield.
pub open spec fn pending(stack: Seq<&Formula>) -> Seq<Formula>
    decreases stack.len(),
{
    if stack.len() == 0 {
        Seq::empty()
    } else {
        stack.last().spec_subformulas() + pending(stack.drop_last())
    }
}

impl<'a> Subformulas<'a> {
    /// The formulas that the walk has still to yield, in order.
    pub closed spec fn remaining(self) -> Seq<Formula> {
        pending(self.children@)
    }

    /// Yields the next subformula, if the walk is not over.
    pub fn next(&mut self) -> (r: Option<&'a Formula>)
        ensures
            match r {
                Some(f) => old(self).remaining().len() > 0 && *f == old(self).remaining()[0]
                    && final(self).remaining() == old(self).remaining().drop_first(),
                None => old(self).remaining().len() == 0 && final(self).remaining()
                    == old(self).remaining(),
            },
    {
        let ghost before = self.children@;
        let item = self.children.pop();
        match item {
            Some(f) => {
                let ghost rest = self.children@;
                assert(rest =~= before.drop_last());
                match f {
                    Formula::And { f1, f2 } | Formula::Or { f1, f2 } => {
                        self.children.push(f1);
                        self.children.push(f2);
                        proof {
                            let one = rest.push(&**f1);
                            let two = one.push(&**f2);
                            assert(two.drop_last() =~= one);
                            assert(one.drop_last() =~= rest);
                            assert(pending(one) =~= f1.spec_subformulas() + pending(rest));
                            assert(pending(two) =~= f2.spec_subformulas() + pending(one));
                            assert(pending(two) =~= f2.spec_subformulas() + (f1.spec_subformulas()
                                + pending(rest)));
                            assert(pending(before).drop_first() =~= pending(two));
                        }
                    },
                    Formula::Box { f: g, .. }
                    | Formula::Diamond { f: g, .. }
                    | Formula::Mu { f: g, .. }
                    | Formula::Nu { f: g, .. } => {
                        self.children.push(g);
                        proof {
                            let one = rest.push(&**g);
                            assert(one.drop_last() =~= rest);
                            assert(pending(before).drop_first() =~= pending(one));
                        }
                    },
                    _ => {
                        assert(pending(before).drop_first() =~= pending(rest));
                    },
                }
                Some(f)
            },
            None => None,
        }
    }
}

impl Variables {
    /// Adds the variables of `other`.
    fn union(&mut self, other: Variables)
        ensures
            final(self).declared@ == old(self).declared@.union(other.declared@),
            final(self).used@ == old(self).used@.union(other.used@),
    {
        self.declared = union(&self.declared, &other.declared);
        self.used = union(&self.used, &other.used);
    }
}

/// Whether the variable `x` is among those whose codes `set` holds.
pub(crate) fn holds(set: &BTreeSet<u32>, x: VarName) -> (r: bool)
    ensures
        r == set@.contains(code(x)),
{
    broadcast use vstd::std_specs::btree::group_btree_axioms;

    set.contains(&(x as u32))
}

impl Clone for Formula {
    fn clone(&self) -> (r: Self)
        ensures
            r == *self,
        decreases self,
    {
        match self {
            Formula::False => Formula::False,
            Formula::True => Formula::True,
            Formula::Var { name } => Formula::Var { name: *name },
            Formula::And { f1, f2 } => Formula::And {
                f1: Box::new((**f1).clone()),
                f2: Box::new((**f2).clone()),
            },
            Formula::Or { f1, f2 } => Formula::Or {
                f1: Box::new((**f1).clone()),
                f2: Box::new((**f2).clone()),
            },
            Formula::Diamond { step, f } => Formula::Diamond {
                step: step.clone(),
                f: Box::new((**f).clone()),
            },
            Formula::Box { step, f } => Formula::Box {
                step: step.clone(),
                f: Box::new((**f).clone()),
            },
            Formula::Mu { var, f } => Formula::Mu { var: *var, f: Box::new((**f).clone()) },
            Formula::Nu { var, f } => Formula::Nu { var: *var, f: Box::new((**f).clone()) },
        }
    }
}

/// Larger of two natural numbers.
pub open spec fn max_nat(a: nat, b: nat) -> nat {
    if a >= b {
        a
    } else {
        b
    }
}

impl Formula {
    /// Largest number of fixed-point binders on a path from the root to a leaf.
    pub open spec fn spec_nesting_depth(self) -> nat
        decreases self,
    {
        match self {
            Formula::True | Formula::False | Formula::Var { .. } => 0,
            Formula::Box { f, .. } | Formula::Diamond { f, .. } => f.spec_nesting_depth(),
            Formula::And { f1, f2 } | Formula::Or { f1, f2 } => max_nat(
                f1.spec_nesting_depth(),
                f2.spec_nesting_depth(),
            ),
            Formula::Mu { f, .. } | Formula::Nu { f, .. } => 1 + f.spec_nesting_depth(),
        }
    }

    /// The formula as a tree over plain values.
    pub open spec fn tree(self) -> FormulaView
        decreases self,
    {
        match self {
            Formula::False => FormulaView::False,
            Formula::True => FormulaView::True,
            Formula::Var { name } => FormulaView::Var { name },
            Formula::And { f1, f2 } => FormulaView::And {
                f1: Box::new(f1.tree()),
                f2: Box::new(f2.tree()),
            },
            Formula::Or { f1, f2 } => FormulaView::Or {
                f1: Box::new(f1.tree()),
                f2: Box::new(f2.tree()),
            },
            Formula::Diamond { step, f } => FormulaView::Diamond {
                step: step@,
                f: Box::new(f.tree()),
            },
            Formula::Box { step, f } => FormulaView::Box { step: step@, f: Box::new(f.tree()) },
            Formula::Mu { var, f } => FormulaView::Mu { var, f: Box::new(f.tree()) },
            Formula::Nu { var, f } => FormulaView::Nu { var, f: Box::new(f.tree()) },
        }
    }

    /// The variables that a fixed-point binder in the formula binds.
    pub open spec fn declared(self) -> Set<VarName>
        decreases self,
    {
        match self {
            Formula::True | Formula::False | Formula::Var { .. } => Set::empty(),
            Formula::Box { f, .. } | Formula::Diamond { f, .. } => f.declared(),
            Formula::And { f1, f2 } | Formula::Or { f1, f2 } => f1.declared().union(f2.declared()),
            Formula::Mu { var, f } | Formula::Nu { var, f } => f.declared().insert(var),
        }
    }

    /// The variables that occur in the formula.
    pub open spec fn used(self) -> Set<VarName>
        decreases self,
    {
        match self {
            Formula::True | Formula::False => Set::empty(),
            Formula::Var { name } => Set::empty().insert(name),
            Formula::Box { f, .. } | Formula::Diamond { f, .. } => f.used(),
            Formula::And { f1, f2 } | Formula::Or { f1, f2 } => f1.used().union(f2.used()),
            Formula::Mu { f, .. } | Formula::Nu { f, .. } => f.used(),
        }
    }

    /// The variables that occur in the formula outside the scope of a
    /// binder of theirs.
    pub open spec fn free(self) -> Set<VarName>
        decreases self,
    {
        match self {
            Formula::True | Formula::False => Set::empty(),
            Formula::Var { name } => Set::empty().insert(name),
            Formula::Box { f, .. } | Formula::Diamond { f, .. } => f.free(),
            Formula::And { f1, f2 } | Formula::Or { f1, f2 } => f1.free().union(f2.free()),
            Formula::Mu { var, f } | Formula::Nu { var, f } => f.free().remove(var),
        }
    }

    /// Some variable occurs in the formula that no binder in it binds.
    pub open spec fn spec_is_open(self) -> bool {
        !self.used().subset_of(self.declared())
    }

    /// No binder stands in the scope of a binder of the same variable, and
    /// no variable is bound in one part of the formula and free in another.
    pub open spec fn scoped(self) -> bool
        decreases self,
    {
        match self {
            Formula::True | Formula::False | Formula::Var { .. } => true,
            Formula::Box { f, .. } | Formula::Diamond { f, .. } => f.scoped(),
            Formula::And { f1, f2 } | Formula::Or { f1, f2 } => {
                &&& f1.scoped()
                &&& f2.scoped()
                &&& f1.declared().disjoint(f2.free())
                &&& f2.declared().disjoint(f1.free())
            },
            Formula::Mu { var, f } | Formula::Nu { var, f } => f.scoped() && !f.declared().contains(
                var,
            ),
        }
    }

    /// No two binders in the formula bind the same variable.
    pub open spec fn distinct_binders(self) -> bool
        decreases self,
    {
        match self {
            Formula::True | Formula::False | Formula::Var { .. } => true,
            Formula::Box { f, .. } | Formula::Diamond { f, .. } => f.distinct_binders(),
            Formula::And { f1, f2 } | Formula::Or { f1, f2 } => {
                &&& f1.distinct_binders()
                &&& f2.distinct_binders()
                &&& f1.declared().disjoint(f2.declared())
            },
            Formula::Mu { var, f } | Formula::Nu { var, f } => f.distinct_binders()
                && !f.declared().contains(var),
        }
    }

    /// Every variable occurs in the scope of a binder of its own only.
    pub open spec fn closed(self) -> bool {
        self.free() =~= Set::<VarName>::empty()
    }

    /// A formula whose binders bind distinct variables, none of which is
    /// free in it, is scoped.
    pub proof fn lemma_distinct_scoped(self)
        requires
            self.distinct_binders(),
            self.free().disjoint(self.declared()),
        ensures
            self.scoped(),
        decreases self,
    {
        match self {
            Formula::True | Formula::False | Formula::Var { .. } => {},
            Formula::Box { f, .. } | Formula::Diamond { f, .. } => {
                f.lemma_distinct_scoped();
            },
            Formula::And { f1, f2 } | Formula::Or { f1, f2 } => {
                assert forall|x: VarName|
                    !(self.free().contains(x) && #[trigger] self.declared().contains(x)) by {}
                assert forall|x: VarName| f1.free().contains(x) implies !f1.declared().contains(
                    x,
                ) && !f2.declared().contains(x) by {
                    assert(self.free().contains(x));
                    assert(!self.declared().contains(x));
                }
                assert forall|x: VarName| f2.free().contains(x) implies !f1.declared().contains(
                    x,
                ) && !f2.declared().contains(x) by {
                    assert(self.free().contains(x));
                    assert(!self.declared().contains(x));
                }
                f1.lemma_distinct_scoped();
                f2.lemma_distinct_scoped();
            },
            Formula::Mu { var, f } | Formula::Nu { var, f } => {
                assert forall|x: VarName| f.free().contains(x) implies !f.declared().contains(x) by {
                    if x != var {
                        assert(self.free().contains(x));
                        assert(self.declared().contains(x) || !f.declared().contains(x));
                    }
                }
                f.lemma_distinct_scoped();
            },
        }
    }

    /// In a scoped formula no free variable is bound anywhere, every
    /// variable that occurs is free or bound, and the formula is open just
    /// when it has a free variable.
    pub proof fn lemma_scoped(self)
        requires
            self.scoped(),
        ensures
            self.free().disjoint(self.declared()),
            self.free().subset_of(self.used()),
            self.used().subset_of(self.free().union(self.declared())),
            self.spec_is_open() <==> !self.closed(),
        decreases self,
    {
        match self {
            Formula::True | Formula::False | Formula::Var { .. } => {},
            Formula::Box { f, .. } | Formula::Diamond { f, .. } => {
                f.lemma_scoped();
            },
            Formula::And { f1, f2 } | Formula::Or { f1, f2 } => {
                f1.lemma_scoped();
                f2.lemma_scoped();
            },
            Formula::Mu { var, f } | Formula::Nu { var, f } => {
                f.lemma_scoped();
            },
        }
        if !self.closed() {
            let x = choose|x: VarName| self.free().contains(x);
            assert(self.used().contains(x) && !self.declared().contains(x));
        }
    }

    /// The formula and its subformulas, in the order of the walk.
    pub open spec fn spec_subformulas(self) -> Seq<Formula>
        decreases self,
    {
        match self {
            Formula::True | Formula::False | Formula::Var { .. } => seq![self],
            Formula::Box { f, .. }
            | Formula::Diamond { f, .. }
            | Formula::Mu { f, .. }
            | Formula::Nu { f, .. } => seq![self] + f.spec_subformulas(),
            Formula::And { f1, f2 } | Formula::Or { f1, f2 } => seq![self] + (f2.spec_subformulas()
                + f1.spec_subformulas()),
        }
    }

    /// A walk over the formula and all its subformulas.
    pub fn subformulas(&self) -> (r: Subformulas<'_>)
        ensures
            r.remaining() == self.spec_subformulas(),
    {
        let mut children: Vec<&Formula> = Vec::new();
        children.push(self);
        proof {
            assert(children@.drop_last() =~= Seq::<&Formula>::empty());
            assert(pending(Seq::<&Formula>::empty()) =~= Seq::<Formula>::empty());
            assert(pending(children@) =~= self.spec_subformulas());
        }
        Subformulas { children }
    }

    /// Whether some variable occurs in the formula that no binder in it
    /// binds.
    pub fn is_open(&self) -> (b: bool)
        ensures
            b == self.spec_is_open(),
    {
        let vars = self.variables();
        proof {
            lemma_codes_compare(self.used(), self.declared());
        }
        !subset(&vars.used, &vars.declared)
    }

    /// The variables that the formula binds and those that occur in it.
    pub(crate) fn variables(&self) -> (r: Variables)
        ensures
            r.declared@ == codes(self.declared()),
            r.used@ == codes(self.used()),
        decreases self,
    {
        broadcast use vstd::std_specs::btree::group_btree_axioms;

        let mut vars = Variables { declared: BTreeSet::new(), used: BTreeSet::new() };
        proof {
            lemma_codes(Set::empty(), Set::empty(), 'X');
        }
        match self {
            Formula::Var { name } => {
                vars.used.insert(*name as u32);
                proof {
                    lemma_codes(Set::empty(), Set::empty(), *name);
                }
            },
            Formula::And { f1, f2 } | Formula::Or { f1, f2 } => {
                vars = f1.variables();
                vars.union(f2.variables());
                proof {
                    lemma_codes(f1.declared(), f2.declared(), 'X');
                    lemma_codes(f1.used(), f2.used(), 'X');
                }
            },
            Formula::Diamond { f, .. } | Formula::Box { f, .. } => {
                vars = f.variables();
            },
            Formula::Mu { var, f } | Formula::Nu { var, f } => {
                vars = f.variables();
                vars.declared.insert(*var as u32);
                proof {
                    lemma_codes(f.declared(), Set::empty(), *var);
                }
            },
            _ => {},
        }
        vars
    }

    /// Whether the nesting depth is at most `limit`.
    pub fn depth_within(&self, limit: u16) -> (b: bool)
        ensures
            b == (self.spec_nesting_depth() <= limit),
        decreases self,
    {
        match self {
            Formula::True | Formula::False | Formula::Var { .. } => true,
            Formula::Box { f, .. } | Formula::Diamond { f, .. } => f.depth_within(limit),
            Formula::And { f1, f2 } | Formula::Or { f1, f2 } => f1.depth_within(limit)
                && f2.depth_within(limit),
            Formula::Mu { f, .. } | Formula::Nu { f, .. } => limit > 0 && f.depth_within(limit - 1),
        }
    }

    /// Whether the formula is a least fixed-point binder.
    pub fn is_mu(&self) -> (b: bool)
        ensures
            b == (self is Mu),
    {
        match self {
            Formula::Mu { .. } => true,
            _ => false,
        }
    }

    /// Whether the formula is a greatest fixed-point binder.
    pub fn is_nu(&self) -> (b: bool)
        ensures
            b == (self is Nu),
    {
        match self {
            Formula::Nu { .. } => true,
            _ => false,
        }
    }

    /// Computes the nesting depth.
    pub fn nesting_depth(&self) -> (d: u16)
        requires
            self.spec_nesting_depth() <= u16::MAX,
        ensures
            d == self.spec_nesting_depth(),
        decreases self,
    {
        match self {
            Formula::True | Formula::False | Formula::Var { .. } => 0,
            Formula::Box { f, .. } | Formula::Diamond { f, .. } => f.nesting_depth(),
            Formula::And { f1, f2 } | Formula::Or { f1, f2 } => {
                let d1: u16 = f1.nesting_depth();
                let d2: u16 = f2.nesting_depth();
                if d1 >= d2 {
                    d1
                } else {
                    d2
                }
            },
            Formula::Mu { f, .. } | Formula::Nu { f, .. } => 1 + f.nesting_depth(),
        }
    }
}

} // verus!
