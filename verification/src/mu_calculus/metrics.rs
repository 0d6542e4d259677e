//! The alternation depth of a formula, and the alternation depth that
//! counts an alternation only where the inner binder uses the variable of
//! the outer.

use crate::mu_calculus::Formula;
use crate::mu_calculus::VarName;
use crate::mu_calculus::holds;
use crate::mu_calculus::lemma_codes_contains;
use crate::mu_calculus::max_nat;
use vstd::prelude::*;

verus! {

/// Whether `h` is a binder of the given kind, least (`true`) or
/// greatest, in which `with` occurs, if a variable is given.
pub open spec fn counts(h: Formula, least: bool, with: Option<VarName>) -> bool {
    &&& if least {
        h is Mu
    } else {
        h is Nu
    }
    &&& (with matches Some(x) ==> h.used().contains(x))
}

/// The largest depth among those of `nodes` that count; 0 if none does.
pub open spec fn deepest(
    nodes: Seq<Formula>,
    least: bool,
    with: Option<VarName>,
    dependent: bool,
) -> nat
    decreases nodes.len(),
{
    if nodes.len() == 0 {
        0
    } else if counts(nodes.last(), least, with) {
        max_nat(nodes.last().depth(dependent), deepest(nodes.drop_last(), least, with, dependent))
    } else {
        deepest(nodes.drop_last(), least, with, dependent)
    }
}

/// The largest depth among several runs of nodes is the largest of the
/// largest depths of the runs.
proof fn lemma_deepest_append(
    a: Seq<Formula>,
    b: Seq<Formula>,
    least: bool,
    with: Option<VarName>,
    dependent: bool,
)
    ensures
        deepest(a + b, least, with, dependent) == max_nat(
            deepest(a, least, with, dependent),
            deepest(b, least, with, dependent),
        ),
    decreases b.len(),
{
    if b.len() == 0 {
        assert(a + b =~= a);
    } else {
        assert((a + b).drop_last() =~= a + b.drop_last());
        assert((a + b).last() == b.last());
        lemma_deepest_append(a, b.drop_last(), least, with, dependent);
    }
}

/// The largest depth of one node.
proof fn lemma_deepest_one(h: Formula, least: bool, with: Option<VarName>, dependent: bool)
    ensures
        deepest(seq![h], least, with, dependent) == if counts(h, least, with) {
            h.depth(dependent)
        } else {
            0
        },
{
    assert(seq![h].drop_last() =~= Seq::<Formula>::empty());
    assert(seq![h].last() == h);
    assert(deepest(Seq::<Formula>::empty(), least, with, dependent) == 0);
}

impl Formula {
    /// The number of subformulas.
    pub open spec fn size(self) -> nat
        decreases self,
    {
        match self {
            Formula::True | Formula::False | Formula::Var { .. } => 1,
            Formula::Box { f, .. }
            | Formula::Diamond { f, .. }
            | Formula::Mu { f, .. }
            | Formula::Nu { f, .. } => 1 + f.size(),
            Formula::And { f1, f2 } | Formula::Or { f1, f2 } => 1 + f1.size() + f2.size(),
        }
    }

    /// The alternation depth (`dependent` is false) or the dependent
    /// alternation depth of the formula: a binder counts 1, and 1 more
    /// than the deepest binder of the other kind among the subformulas of
    /// its body, or, for the dependent depth, than the deepest such
    /// binder in which its variable occurs.
    pub open spec fn depth(self, dependent: bool) -> nat
        decreases self, 0nat,
    {
        match self {
            Formula::True | Formula::False | Formula::Var { .. } => 0,
            Formula::Box { f, .. } | Formula::Diamond { f, .. } => f.depth(dependent),
            Formula::And { f1, f2 } | Formula::Or { f1, f2 } => max_nat(
                f1.depth(dependent),
                f2.depth(dependent),
            ),
            Formula::Mu { var, f } => max_nat(
                max_nat(1, f.depth(dependent)),
                1 + f.deepest_within(
                    false,
                    if dependent {
                        Some(var)
                    } else {
                        None
                    },
                    dependent,
                ),
            ),
            Formula::Nu { var, f } => max_nat(
                max_nat(1, f.depth(dependent)),
                1 + f.deepest_within(
                    true,
                    if dependent {
                        Some(var)
                    } else {
                        None
                    },
                    dependent,
                ),
            ),
        }
    }

    /// The largest depth among the subformulas of the formula, itself
    /// included, that count; 0 if none does.
    pub open spec fn deepest_within(self, least: bool, with: Option<VarName>, dependent: bool) -> nat
        decreases self, 1nat,
    {
        let here: nat = if counts(self, least, with) {
            self.depth(dependent)
        } else {
            0
        };
        match self {
            Formula::True | Formula::False | Formula::Var { .. } => 0,
            Formula::Box { f, .. } | Formula::Diamond { f, .. } => f.deepest_within(
                least,
                with,
                dependent,
            ),
            Formula::And { f1, f2 } | Formula::Or { f1, f2 } => max_nat(
                f1.deepest_within(least, with, dependent),
                f2.deepest_within(least, with, dependent),
            ),
            Formula::Mu { f, .. } | Formula::Nu { f, .. } => max_nat(
                here,
                f.deepest_within(least, with, dependent),
            ),
        }
    }

    /// The alternation depth.
    pub open spec fn spec_alternation_depth(self) -> nat {
        self.depth(false)
    }

    /// The dependent alternation depth.
    pub open spec fn spec_dependent_ad(self) -> nat {
        self.depth(true)
    }

    /// The largest depth among the subformulas is the largest depth in
    /// the walk over them, and every subformula is no larger than the
    /// formula.
    pub proof fn lemma_deepest_walk(self, least: bool, with: Option<VarName>, dependent: bool)
        ensures
            deepest(self.spec_subformulas(), least, with, dependent) == self.deepest_within(
                least,
                with,
                dependent,
            ),
            forall|i: int|
                0 <= i < self.spec_subformulas().len() ==> (
                #[trigger] self.spec_subformulas()[i]).size() <= self.size(),
        decreases self,
    {
        let walk = self.spec_subformulas();
        lemma_deepest_one(self, least, with, dependent);
        match self {
            Formula::True | Formula::False | Formula::Var { .. } => {},
            Formula::Box { f, .. }
            | Formula::Diamond { f, .. }
            | Formula::Mu { f, .. }
            | Formula::Nu { f, .. } => {
                f.lemma_deepest_walk(least, with, dependent);
                lemma_deepest_append(seq![self], f.spec_subformulas(), least, with, dependent);
                assert forall|i: int| 0 <= i < walk.len() implies (#[trigger] walk[i]).size()
                    <= self.size() by {
                    if i > 0 {
                        assert(walk[i] == f.spec_subformulas()[i - 1]);
                    }
                }
            },
            Formula::And { f1, f2 } | Formula::Or { f1, f2 } => {
                f1.lemma_deepest_walk(least, with, dependent);
                f2.lemma_deepest_walk(least, with, dependent);
                let both = f2.spec_subformulas() + f1.spec_subformulas();
                lemma_deepest_append(
                    f2.spec_subformulas(),
                    f1.spec_subformulas(),
                    least,
                    with,
                    dependent,
                );
                lemma_deepest_append(seq![self], both, least, with, dependent);
                assert forall|i: int| 0 <= i < walk.len() implies (#[trigger] walk[i]).size()
                    <= self.size() by {
                    if i > 0 {
                        assert(walk[i] == both[i - 1]);
                        if i - 1 < f2.spec_subformulas().len() {
                            assert(both[i - 1] == f2.spec_subformulas()[i - 1]);
                        } else {
                            assert(both[i - 1] == f1.spec_subformulas()[i - 1
                                - f2.spec_subformulas().len()]);
                        }
                    }
                }
            },
        }
    }

    /// The nesting depth is at least the alternation depth, which is at
    /// least the dependent alternation depth.
    pub proof fn lemma_depths_ordered(self)
        ensures
            self.spec_nesting_depth() >= self.spec_alternation_depth(),
            self.spec_alternation_depth() >= self.spec_dependent_ad(),
        decreases self,
    {
        self.lemma_depths_within(true, None);
        self.lemma_depths_within(false, None);
    }

    /// The deepest binder that counts for the dependent depth is no
    /// deeper than the deepest that counts for the alternation depth,
    /// which is no deeper than the formula nests binders.
    pub proof fn lemma_depths_within(self, least: bool, with: Option<VarName>)
        ensures
            self.depth(true) <= self.depth(false) <= self.spec_nesting_depth(),
            self.deepest_within(least, with, true) <= self.deepest_within(least, None, false)
                <= self.spec_nesting_depth(),
        decreases self,
    {
        match self {
            Formula::True | Formula::False | Formula::Var { .. } => {},
            Formula::Box { f, .. } | Formula::Diamond { f, .. } => {
                f.lemma_depths_within(least, with);
            },
            Formula::And { f1, f2 } | Formula::Or { f1, f2 } => {
                f1.lemma_depths_within(least, with);
                f2.lemma_depths_within(least, with);
            },
            Formula::Mu { var, f } => {
                f.lemma_depths_within(least, with);
                f.lemma_depths_within(false, Some(var));
                assert(self.depth(true) <= self.depth(false));
                assert(self.depth(false) <= self.spec_nesting_depth());
                assert(counts(self, least, with) ==> counts(self, least, None));
            },
            Formula::Nu { var, f } => {
                f.lemma_depths_within(least, with);
                f.lemma_depths_within(true, Some(var));
                assert(self.depth(true) <= self.depth(false));
                assert(self.depth(false) <= self.spec_nesting_depth());
                assert(counts(self, least, with) ==> counts(self, least, None));
            },
        }
    }

    /// Computes the alternation depth.
    pub fn alternation_depth(&self) -> (d: u16)
        requires
            self.spec_alternation_depth() <= u16::MAX,
        ensures
            d == self.spec_alternation_depth(),
    {
        self.depth_of(false)
    }

    /// Computes the dependent alternation depth.
    pub fn dependent_ad(&self) -> (d: u16)
        requires
            self.spec_dependent_ad() <= u16::MAX,
        ensures
            d == self.spec_dependent_ad(),
    {
        self.depth_of(true)
    }

    /// Computes the alternation depth or the dependent alternation depth.
    fn depth_of(&self, dependent: bool) -> (d: u16)
        requires
            self.depth(dependent) <= u16::MAX,
        ensures
            d == self.depth(dependent),
        decreases self.size(), 1nat,
    {
        match self {
            Formula::True | Formula::False | Formula::Var { .. } => 0,
            Formula::Box { f, .. } | Formula::Diamond { f, .. } => f.depth_of(dependent),
            Formula::And { f1, f2 } | Formula::Or { f1, f2 } => {
                let d1: u16 = f1.depth_of(dependent);
                let d2: u16 = f2.depth_of(dependent);
                if d1 >= d2 {
                    d1
                } else {
                    d2
                }
            },
            Formula::Mu { var, f } => self.binder_depth(false, *var, f, dependent),
            Formula::Nu { var, f } => self.binder_depth(true, *var, f, dependent),
        }
    }

    /// Computes the depth of the binder `self` of `var` over `body`:
    /// `other` is the kind of the binders that alternate with it.
    fn binder_depth(&self, other: bool, var: VarName, body: &Formula, dependent: bool) -> (d: u16)
        requires
            self.size() == 1 + body.size(),
            self.depth(dependent) <= u16::MAX,
            self.depth(dependent) == max_nat(
                max_nat(1, body.depth(dependent)),
                1 + body.deepest_within(
                    other,
                    if dependent {
                        Some(var)
                    } else {
                        None
                    },
                    dependent,
                ),
            ),
        ensures
            d == self.depth(dependent),
        decreases self.size(), 0nat,
    {
        let ghost with: Option<VarName> = if dependent {
            Some(var)
        } else {
            None
        };
        let ghost all = body.spec_subformulas();
        proof {
            body.lemma_deepest_walk(other, with, dependent);
        }
        let inner: u16 = body.depth_of(dependent);
        let mut best: u16 = 0;
        let mut walk = body.subformulas();
        let ghost mut seen: Seq<Formula> = Seq::empty();
        loop
            invariant
                all == body.spec_subformulas(),
                seen + walk.remaining() == all,
                best == deepest(seen, other, with, dependent),
                deepest(all, other, with, dependent) < u16::MAX,
                deepest(all, other, with, dependent) == body.deepest_within(other, with, dependent),
                inner == body.depth(dependent),
                self.depth(dependent) == max_nat(
                    max_nat(1, body.depth(dependent)),
                    1 + body.deepest_within(other, with, dependent),
                ),
                with == if dependent {
                    Some(var)
                } else {
                    None::<VarName>
                },
                self.size() == 1 + body.size(),
                forall|i: int| 0 <= i < all.len() ==> (#[trigger] all[i]).size() <= body.size(),
            decreases walk.remaining().len(),
        {
            let ghost rest = walk.remaining();
            match walk.next() {
                Some(h) => {
                    proof {
                        assert(all[seen.len() as int] == rest[0]);
                        assert(seen.push(*h) + walk.remaining() =~= seen + rest);
                        assert(seen.push(*h).drop_last() =~= seen);
                        lemma_deepest_append(seen.push(*h), walk.remaining(), other, with, dependent);
                    }
                    let of_kind = if other {
                        h.is_mu()
                    } else {
                        h.is_nu()
                    };
                    proof {
                        lemma_codes_contains(h.used(), var);
                    }
                    if of_kind && (!dependent || holds(&h.variables().used, var)) {
                        let d: u16 = h.depth_of(dependent);
                        if d > best {
                            best = d;
                        }
                    }
                    proof {
                        seen = seen.push(*h);
                    }
                },
                None => {
                    proof {
                        assert(seen =~= all);
                    }
                    let first: u16 = if inner >= 1 {
                        inner
                    } else {
                        1
                    };
                    return if first >= best + 1 {
                        first
                    } else {
                        best + 1
                    };
                },
            }
        }
    }
}

} // verus!
