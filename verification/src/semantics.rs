//! The meaning of a formula: the set of states that satisfy it.

use crate::lts::LtsView;
use crate::lts::State;
use crate::mu_calculus::Formula;
use crate::mu_calculus::VarName;
use vstd::prelude::*;

verus! {

/// An assignment of sets of states to the fixed-point variables.
pub type Valuation = Map<VarName, Set<State>>;

/// States with some transition labeled `a` into `target`.
pub open spec fn diamond(l: LtsView, a: Seq<char>, target: Set<State>) -> Set<State> {
    Set::new(
        |s: State|
            l.states.contains(s) && exists|i: int|
                0 <= i < l.targets(s, a).len() && target.contains(#[trigger] l.targets(s, a)[i]),
    )
}

/// States all of whose transitions labeled `a` lead into `target`.
pub open spec fn boxed(l: LtsView, a: Seq<char>, target: Set<State>) -> Set<State> {
    Set::new(
        |s: State|
            l.states.contains(s) && forall|i: int|
                0 <= i < l.targets(s, a).len() ==> target.contains(#[trigger] l.targets(s, a)[i]),
    )
}

/// `v` is a set of states out of `states`.
pub open spec fn among(v: Set<State>, states: Set<State>) -> bool {
    v.subset_of(states)
}

/// The states that satisfy `f` when the variables stand for the sets that
/// `e` gives them. A least fixed point is the intersection of all sets of
/// states that the body maps into themselves; a greatest fixed point is
/// the union of all sets of states that the body maps onto a superset.
pub open spec fn sem(l: LtsView, f: Formula, e: Valuation) -> Set<State>
    decreases f,
{
    match f {
        Formula::False => Set::empty(),
        Formula::True => l.states,
        Formula::Var { name } => e[name],
        Formula::And { f1, f2 } => sem(l, *f1, e).intersect(sem(l, *f2, e)),
        Formula::Or { f1, f2 } => sem(l, *f1, e).union(sem(l, *f2, e)),
        Formula::Diamond { step, f } => diamond(l, step@, sem(l, *f, e)),
        Formula::Box { step, f } => boxed(l, step@, sem(l, *f, e)),
        Formula::Mu { var, f } => Set::new(
            |s: State|
                l.states.contains(s) && forall|v: Set<State>|
                    #[trigger] among(v, l.states) && sem(l, *f, e.insert(var, v)).subset_of(v)
                        ==> v.contains(s),
        ),
        Formula::Nu { var, f } => Set::new(
            |s: State|
                l.states.contains(s) && exists|v: Set<State>|
                    #[trigger] among(v, l.states) && v.subset_of(sem(l, *f, e.insert(var, v)))
                        && v.contains(s),
        ),
    }
}

/// The least fixed-point binder of `var` over `body`.
pub open spec fn mu(var: VarName, body: Formula) -> Formula {
    Formula::Mu { var, f: Box::new(body) }
}

/// The greatest fixed-point binder of `var` over `body`.
pub open spec fn nu(var: VarName, body: Formula) -> Formula {
    Formula::Nu { var, f: Box::new(body) }
}

/// Every variable among `vars` stands for a set of states of `l`.
pub open spec fn bounded_on(l: LtsView, e: Valuation, vars: Set<VarName>) -> bool {
    forall|x: VarName| vars.contains(x) ==> (#[trigger] e[x]).subset_of(l.states)
}

/// On the variables among `vars`, `e1` is pointwise included in `e2`.
pub open spec fn le_on(e1: Valuation, e2: Valuation, vars: Set<VarName>) -> bool {
    forall|x: VarName| vars.contains(x) ==> (#[trigger] e1[x]).subset_of(e2[x])
}

/// `e1` and `e2` give the variables among `vars` the same sets.
pub open spec fn agree_on(e1: Valuation, e2: Valuation, vars: Set<VarName>) -> bool {
    forall|x: VarName| vars.contains(x) ==> #[trigger] e1[x] == e2[x]
}

/// A formula whose free variables stand for sets of states is satisfied by
/// states only.
pub proof fn lemma_sem_bounded(l: LtsView, f: Formula, e: Valuation)
    requires
        bounded_on(l, e, f.free()),
    ensures
        sem(l, f, e).subset_of(l.states),
    decreases f,
{
    match f {
        Formula::And { f1, f2 } => {
            lemma_sem_bounded(l, *f1, e);
        },
        Formula::Or { f1, f2 } => {
            lemma_sem_bounded(l, *f1, e);
            lemma_sem_bounded(l, *f2, e);
        },
        Formula::Var { name } => {
            assert(f.free().contains(name));
        },
        _ => {},
    }
}

/// The meaning of a formula grows with the sets that its free variables
/// stand for.
pub proof fn lemma_sem_monotone(l: LtsView, f: Formula, e1: Valuation, e2: Valuation)
    requires
        le_on(e1, e2, f.free()),
    ensures
        sem(l, f, e1).subset_of(sem(l, f, e2)),
    decreases f,
{
    match f {
        Formula::False | Formula::True => {},
        Formula::Var { name } => {
            assert(f.free().contains(name));
        },
        Formula::And { f1, f2 } | Formula::Or { f1, f2 } => {
            lemma_sem_monotone(l, *f1, e1, e2);
            lemma_sem_monotone(l, *f2, e1, e2);
        },
        Formula::Diamond { step, f: g } => {
            lemma_sem_monotone(l, *g, e1, e2);
            assert forall|s: State| sem(l, f, e1).contains(s) implies sem(l, f, e2).contains(s) by {
                let i = choose|i: int|
                    0 <= i < l.targets(s, step@).len() && sem(l, *g, e1).contains(
                        #[trigger] l.targets(s, step@)[i],
                    );
                assert(sem(l, *g, e2).contains(l.targets(s, step@)[i]));
            }
        },
        Formula::Box { step, f: g } => {
            lemma_sem_monotone(l, *g, e1, e2);
        },
        Formula::Mu { var, f: g } => {
            assert forall|s: State| sem(l, f, e1).contains(s) implies sem(l, f, e2).contains(s) by {
                assert forall|v: Set<State>|
                    #[trigger] among(v, l.states) && sem(l, *g, e2.insert(var, v)).subset_of(
                        v,
                    ) implies v.contains(s) by {
                    lemma_le_insert(e1, e2, *g, var, v, v);
                    lemma_sem_monotone(l, *g, e1.insert(var, v), e2.insert(var, v));
                    assert(sem(l, *g, e1.insert(var, v)).subset_of(v));
                    assert(among(v, l.states));
                }
            }
        },
        Formula::Nu { var, f: g } => {
            assert forall|s: State| sem(l, f, e1).contains(s) implies sem(l, f, e2).contains(s) by {
                let v = choose|v: Set<State>|
                    #[trigger] among(v, l.states) && v.subset_of(sem(l, *g, e1.insert(var, v)))
                        && v.contains(s);
                lemma_le_insert(e1, e2, *g, var, v, v);
                lemma_sem_monotone(l, *g, e1.insert(var, v), e2.insert(var, v));
                assert(v.subset_of(sem(l, *g, e2.insert(var, v))));
            }
        },
    }
}

/// Inclusion on the free variables of a binder extends to its body when
/// the bound variable is given included sets.
pub proof fn lemma_le_insert(
    e1: Valuation,
    e2: Valuation,
    body: Formula,
    var: VarName,
    v1: Set<State>,
    v2: Set<State>,
)
    requires
        le_on(e1, e2, body.free().remove(var)),
        v1.subset_of(v2),
    ensures
        le_on(e1.insert(var, v1), e2.insert(var, v2), body.free()),
{
    assert forall|x: VarName| body.free().contains(x) implies (#[trigger] e1.insert(var, v1)[x]).subset_of(
        e2.insert(var, v2)[x],
    ) by {
        if x != var {
            assert(body.free().remove(var).contains(x));
            assert(e1[x].subset_of(e2[x]));
        }
    }
}

/// Agreement on the free variables of a binder extends to its body when
/// the bound variable is given the same set.
pub proof fn lemma_agree_insert(e1: Valuation, e2: Valuation, body: Formula, var: VarName, v: Set<State>)
    requires
        agree_on(e1, e2, body.free().remove(var)),
    ensures
        agree_on(e1.insert(var, v), e2.insert(var, v), body.free()),
{
    assert forall|x: VarName| body.free().contains(x) implies #[trigger] e1.insert(var, v)[x]
        == e2.insert(var, v)[x] by {
        if x != var {
            assert(body.free().remove(var).contains(x));
            assert(e1[x] == e2[x]);
        }
    }
}

/// The meaning of a formula depends on its free variables only.
pub proof fn lemma_sem_frame(l: LtsView, f: Formula, e1: Valuation, e2: Valuation)
    requires
        agree_on(e1, e2, f.free()),
    ensures
        sem(l, f, e1) == sem(l, f, e2),
{
    assert(le_on(e1, e2, f.free())) by {
        assert forall|x: VarName| f.free().contains(x) implies (#[trigger] e1[x]).subset_of(e2[x]) by {
            assert(e1[x] == e2[x]);
        }
    }
    assert(le_on(e2, e1, f.free())) by {
        assert forall|x: VarName| f.free().contains(x) implies (#[trigger] e2[x]).subset_of(e1[x]) by {
            assert(e1[x] == e2[x]);
        }
    }
    lemma_sem_monotone(l, f, e1, e2);
    lemma_sem_monotone(l, f, e2, e1);
    assert(sem(l, f, e1) =~= sem(l, f, e2));
}

/// A least fixed point is included in every set of states that the body
/// maps into itself.
pub proof fn lemma_mu_least(l: LtsView, var: VarName, body: Formula, e: Valuation, v: Set<State>)
    requires
        v.subset_of(l.states),
        sem(l, body, e.insert(var, v)).subset_of(v),
    ensures
        sem(l, mu(var, body), e).subset_of(v),
{
    assert(among(v, l.states));
}

/// A greatest fixed point includes every set of states that the body maps
/// onto a superset.
pub proof fn lemma_nu_greatest(l: LtsView, var: VarName, body: Formula, e: Valuation, v: Set<State>)
    requires
        v.subset_of(l.states),
        v.subset_of(sem(l, body, e.insert(var, v))),
    ensures
        v.subset_of(sem(l, nu(var, body), e)),
{
    assert(among(v, l.states));
}

/// The body maps a least fixed point onto itself.
pub proof fn lemma_mu_fixed(l: LtsView, var: VarName, body: Formula, e: Valuation)
    requires
        bounded_on(l, e, body.free().remove(var)),
    ensures
        sem(l, body, e.insert(var, sem(l, mu(var, body), e))) == sem(l, mu(var, body), e),
{
    let lfp = sem(l, mu(var, body), e);
    let image = sem(l, body, e.insert(var, lfp));
    lemma_bounded_insert(l, e, body, var, lfp);
    lemma_sem_bounded(l, body, e.insert(var, lfp));
    assert forall|s: State| image.contains(s) implies lfp.contains(s) by {
        assert forall|v: Set<State>|
            #[trigger] among(v, l.states) && sem(l, body, e.insert(var, v)).subset_of(
                v,
            ) implies v.contains(s) by {
            lemma_mu_least(l, var, body, e, v);
            lemma_le_insert(e, e, body, var, lfp, v);
            lemma_sem_monotone(l, body, e.insert(var, lfp), e.insert(var, v));
        }
    }
    lemma_bounded_insert(l, e, body, var, image);
    lemma_le_insert(e, e, body, var, image, lfp);
    lemma_sem_monotone(l, body, e.insert(var, image), e.insert(var, lfp));
    lemma_mu_least(l, var, body, e, image);
    assert(image =~= lfp);
}

/// The body maps a greatest fixed point onto itself.
pub proof fn lemma_nu_fixed(l: LtsView, var: VarName, body: Formula, e: Valuation)
    requires
        bounded_on(l, e, body.free().remove(var)),
    ensures
        sem(l, body, e.insert(var, sem(l, nu(var, body), e))) == sem(l, nu(var, body), e),
{
    let gfp = sem(l, nu(var, body), e);
    let image = sem(l, body, e.insert(var, gfp));
    lemma_bounded_insert(l, e, body, var, gfp);
    lemma_sem_bounded(l, body, e.insert(var, gfp));
    assert forall|s: State| gfp.contains(s) implies image.contains(s) by {
        let v = choose|v: Set<State>|
            #[trigger] among(v, l.states) && v.subset_of(sem(l, body, e.insert(var, v)))
                && v.contains(s);
        lemma_nu_greatest(l, var, body, e, v);
        lemma_le_insert(e, e, body, var, v, gfp);
        lemma_sem_monotone(l, body, e.insert(var, v), e.insert(var, gfp));
    }
    lemma_bounded_insert(l, e, body, var, image);
    lemma_le_insert(e, e, body, var, gfp, image);
    lemma_sem_monotone(l, body, e.insert(var, gfp), e.insert(var, image));
    lemma_nu_greatest(l, var, body, e, image);
    assert(image =~= gfp);
}

/// Boundedness on the free variables of a binder extends to its body when
/// the bound variable is given a set of states.
pub proof fn lemma_bounded_insert(l: LtsView, e: Valuation, body: Formula, var: VarName, v: Set<State>)
    requires
        bounded_on(l, e, body.free().remove(var)),
        v.subset_of(l.states),
    ensures
        bounded_on(l, e.insert(var, v), body.free()),
{
    assert forall|x: VarName| body.free().contains(x) implies (#[trigger] e.insert(var, v)[x]).subset_of(
        l.states,
    ) by {
        if x != var {
            assert(body.free().remove(var).contains(x));
            assert(e[x].subset_of(l.states));
        }
    }
}

/// The states that satisfy the closed formula `f`.
pub open spec fn satisfying(l: LtsView, f: Formula) -> Set<State> {
    sem(l, f, Map::empty())
}

} // verus!
