//! Tests of how a formula binds its variables.

use crate::mu_calculus::Formula;
use crate::mu_calculus::codes;
use crate::mu_calculus::holds;
use crate::mu_calculus::lemma_codes;
use crate::mu_calculus::lemma_codes_compare;
use crate::mu_calculus::lemma_codes_contains;
use crate::sets::disjoint;
use crate::sets::union;
use std::collections::BTreeSet;
use vstd::prelude::*;

verus! {

impl Formula {
    /// The codes of the variables that occur in the formula outside the
    /// scope of a binder of theirs.
    fn free_variables(&self) -> (r: BTreeSet<u32>)
        ensures
            r@ == codes(self.free()),
        decreases self,
    {
        broadcast use vstd::std_specs::btree::group_btree_axioms;

        match self {
            Formula::True | Formula::False => {
                proof {
                    lemma_codes(Set::empty(), Set::empty(), 'X');
                }
                BTreeSet::new()
            },
            Formula::Var { name } => {
                let mut r: BTreeSet<u32> = BTreeSet::new();
                r.insert(*name as u32);
                proof {
                    lemma_codes(Set::empty(), Set::empty(), *name);
                }
                r
            },
            Formula::Box { f, .. } | Formula::Diamond { f, .. } => f.free_variables(),
            Formula::And { f1, f2 } | Formula::Or { f1, f2 } => {
                proof {
                    lemma_codes(f1.free(), f2.free(), 'X');
                }
                union(&f1.free_variables(), &f2.free_variables())
            },
            Formula::Mu { var, f } | Formula::Nu { var, f } => {
                let mut r = f.free_variables();
                let code: u32 = *var as u32;
                r.remove(&code);
                proof {
                    lemma_codes(f.free(), Set::empty(), *var);
                }
                r
            },
        }
    }

    /// Whether every variable occurs in the scope of a binder of its own
    /// only.
    pub fn is_closed(&self) -> (b: bool)
        ensures
            b == self.closed(),
    {
        let free = self.free_variables();
        proof {
            lemma_codes_compare(self.free(), Set::empty());
        }
        free.is_empty()
    }

    /// Whether no binder stands in the scope of a binder of the same
    /// variable, and no variable is bound in one part of the formula and
    /// free in another.
    pub fn is_scoped(&self) -> (b: bool)
        ensures
            b == self.scoped(),
        decreases self,
    {
        match self {
            Formula::True | Formula::False | Formula::Var { .. } => true,
            Formula::Box { f, .. } | Formula::Diamond { f, .. } => f.is_scoped(),
            Formula::And { f1, f2 } | Formula::Or { f1, f2 } => {
                proof {
                    lemma_codes_compare(f1.declared(), f2.free());
                    lemma_codes_compare(f2.declared(), f1.free());
                }
                f1.is_scoped() && f2.is_scoped() && disjoint(
                    &f1.variables().declared,
                    &f2.free_variables(),
                ) && disjoint(&f2.variables().declared, &f1.free_variables())
            },
            Formula::Mu { var, f } | Formula::Nu { var, f } => {
                proof {
                    lemma_codes_contains(f.declared(), *var);
                }
                f.is_scoped() && !holds(&f.variables().declared, *var)
            },
        }
    }

    /// Whether no two binders in the formula bind the same variable.
    pub fn has_distinct_binders(&self) -> (b: bool)
        ensures
            b == self.distinct_binders(),
        decreases self,
    {
        match self {
            Formula::True | Formula::False | Formula::Var { .. } => true,
            Formula::Box { f, .. } | Formula::Diamond { f, .. } => f.has_distinct_binders(),
            Formula::And { f1, f2 } | Formula::Or { f1, f2 } => {
                proof {
                    lemma_codes_compare(f1.declared(), f2.declared());
                }
                f1.has_distinct_binders() && f2.has_distinct_binders() && disjoint(
                    &f1.variables().declared,
                    &f2.variables().declared,
                )
            },
            Formula::Mu { var, f } | Formula::Nu { var, f } => {
                proof {
                    lemma_codes_contains(f.declared(), *var);
                }
                f.has_distinct_binders() && !holds(&f.variables().declared, *var)
            },
        }
    }
}

} // verus!
