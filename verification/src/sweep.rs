//! Sweeps over the subformulas of a formula that give fixed-point
//! variables the sets from which their iterations start.

use crate::env::lemma_within_insert;
use crate::env::within;
use crate::fixpoint::start;
use crate::lts::LtsView;
use crate::mu_calculus::Formula;
use crate::mu_calculus::VarName;
use crate::semantics::Valuation;
use vstd::prelude::*;

verus! {

/// Whether a sweep over the subformulas of a formula gives the variable of
/// the binder `h` its starting set: every binder when all are seeded
/// (`mode` is `None`), the open binders of one kind when those are reset
/// (`mode` is `Some(least)`).
pub open spec fn touched(mode: Option<bool>, h: Formula) -> bool {
    match h {
        Formula::Mu { .. } => mode is None || (mode == Some(true) && h.spec_is_open()),
        Formula::Nu { .. } => mode is None || (mode == Some(false) && h.spec_is_open()),
        _ => false,
    }
}

/// What a sweep makes of `e` at the node `h`.
pub open spec fn touch(l: LtsView, mode: Option<bool>, h: Formula, e: Valuation) -> Valuation {
    match h {
        Formula::Mu { var, .. } => if touched(mode, h) {
            e.insert(var, start(l, true))
        } else {
            e
        },
        Formula::Nu { var, .. } => if touched(mode, h) {
            e.insert(var, start(l, false))
        } else {
            e
        },
        _ => e,
    }
}

/// What a sweep over `nodes`, in order, makes of `e`.
pub open spec fn sweep(l: LtsView, mode: Option<bool>, nodes: Seq<Formula>, e: Valuation) -> Valuation
    decreases nodes.len(),
{
    if nodes.len() == 0 {
        e
    } else {
        sweep(l, mode, nodes.drop_first(), touch(l, mode, nodes[0], e))
    }
}

/// A sweep over two runs of nodes is the sweep over the second after the
/// sweep over the first.
pub proof fn lemma_sweep_append(
    l: LtsView,
    mode: Option<bool>,
    a: Seq<Formula>,
    b: Seq<Formula>,
    e: Valuation,
)
    ensures
        sweep(l, mode, a + b, e) == sweep(l, mode, b, sweep(l, mode, a, e)),
    decreases a.len(),
{
    if a.len() == 0 {
        assert(a + b =~= b);
    } else {
        assert((a + b).drop_first() =~= a.drop_first() + b);
        lemma_sweep_append(l, mode, a.drop_first(), b, touch(l, mode, a[0], e));
    }
}

/// Between `before` and `after`, the variable of every binder in `h` that
/// a sweep touches got its starting set, and that of every other binder in
/// `h` kept its set.
pub open spec fn settled(
    l: LtsView,
    mode: Option<bool>,
    h: Formula,
    before: Valuation,
    after: Valuation,
) -> bool
    decreases h,
{
    match h {
        Formula::True | Formula::False | Formula::Var { .. } => true,
        Formula::Box { f, .. } | Formula::Diamond { f, .. } => settled(l, mode, *f, before, after),
        Formula::And { f1, f2 } | Formula::Or { f1, f2 } => settled(l, mode, *f1, before, after)
            && settled(l, mode, *f2, before, after),
        Formula::Mu { var, f } => {
            &&& after.contains_key(var) || !touched(mode, h)
            &&& after[var] == if touched(mode, h) {
                start(l, true)
            } else {
                before[var]
            }
            &&& settled(l, mode, *f, before, after)
        },
        Formula::Nu { var, f } => {
            &&& after.contains_key(var) || !touched(mode, h)
            &&& after[var] == if touched(mode, h) {
                start(l, false)
            } else {
                before[var]
            }
            &&& settled(l, mode, *f, before, after)
        },
    }
}

/// `a` and `b` bind the same variables among `vars`, and to the same sets.
pub open spec fn alike(a: Valuation, b: Valuation, vars: Set<VarName>) -> bool {
    forall|x: VarName| #[trigger]
        vars.contains(x) ==> a[x] == b[x] && (a.contains_key(x) == b.contains_key(x))
}

/// `a` and `b` bind the same variables not among `vars`, and to the same
/// sets, and `b` binds what `a` binds.
pub open spec fn alike_but(a: Valuation, b: Valuation, vars: Set<VarName>) -> bool {
    &&& forall|x: VarName|
        !(#[trigger] vars.contains(x)) ==> a[x] == b[x] && (a.contains_key(x) == b.contains_key(x))
    &&& forall|x: VarName| #[trigger] a.contains_key(x) ==> b.contains_key(x)
}

/// Whether a sweep settled `h` is a matter of the variables that `h`
/// binds only.
proof fn lemma_settled_frame(
    l: LtsView,
    mode: Option<bool>,
    h: Formula,
    b1: Valuation,
    a1: Valuation,
    b2: Valuation,
    a2: Valuation,
)
    requires
        settled(l, mode, h, b1, a1),
        alike(b1, b2, h.declared()),
        alike(a1, a2, h.declared()),
    ensures
        settled(l, mode, h, b2, a2),
    decreases h,
{
    match h {
        Formula::True | Formula::False | Formula::Var { .. } => {},
        Formula::Box { f, .. } | Formula::Diamond { f, .. } => {
            lemma_settled_frame(l, mode, *f, b1, a1, b2, a2);
        },
        Formula::And { f1, f2 } | Formula::Or { f1, f2 } => {
            assert forall|x: VarName| #[trigger] f1.declared().contains(x) implies h.declared().contains(x) by {}
            assert forall|x: VarName| #[trigger] f2.declared().contains(x) implies h.declared().contains(x) by {}
            lemma_settled_frame(l, mode, *f1, b1, a1, b2, a2);
            lemma_settled_frame(l, mode, *f2, b1, a1, b2, a2);
        },
        Formula::Mu { var, f } | Formula::Nu { var, f } => {
            assert(h.declared().contains(var));
            assert forall|x: VarName| #[trigger] f.declared().contains(x) implies h.declared().contains(x) by {}
            lemma_settled_frame(l, mode, *f, b1, a1, b2, a2);
        },
    }
}

/// A sweep over the subformulas of a formula whose binders bind distinct
/// variables settles the formula, and leaves all other variables alone.
pub proof fn lemma_sweep_settles(l: LtsView, mode: Option<bool>, h: Formula, e: Valuation)
    requires
        h.distinct_binders(),
    ensures
        settled(l, mode, h, e, sweep(l, mode, h.spec_subformulas(), e)),
        alike_but(e, sweep(l, mode, h.spec_subformulas(), e), h.declared()),
    decreases h,
{
    let out = sweep(l, mode, h.spec_subformulas(), e);
    let first = touch(l, mode, h, e);
    let rest = h.spec_subformulas().drop_first();
    assert(h.spec_subformulas()[0] == h);
    assert(out == sweep(l, mode, rest, first));
    match h {
        Formula::True | Formula::False | Formula::Var { .. } => {
            assert(rest =~= Seq::<Formula>::empty());
        },
        Formula::Box { f, .. } | Formula::Diamond { f, .. } => {
            assert(rest =~= f.spec_subformulas());
            lemma_sweep_settles(l, mode, *f, e);
        },
        Formula::Mu { var, f } | Formula::Nu { var, f } => {
            assert(rest =~= f.spec_subformulas());
            lemma_sweep_settles(l, mode, *f, first);
            assert(alike(first, e, f.declared()));
            assert(alike(out, out, f.declared()));
            lemma_settled_frame(l, mode, *f, first, out, e, out);
            assert(!f.declared().contains(var));
            assert(out[var] == first[var]);
            assert forall|x: VarName| !(#[trigger] h.declared().contains(x)) implies e[x] == out[x] && (
            e.contains_key(x) == out.contains_key(x)) by {
                assert(!f.declared().contains(x));
            }
            assert forall|x: VarName| #[trigger] e.contains_key(x) implies out.contains_key(x) by {
                assert(first.contains_key(x));
            }
        },
        Formula::And { f1, f2 } | Formula::Or { f1, f2 } => {
            assert(rest =~= f2.spec_subformulas() + f1.spec_subformulas());
            lemma_sweep_append(l, mode, f2.spec_subformulas(), f1.spec_subformulas(), e);
            let mid = sweep(l, mode, f2.spec_subformulas(), e);
            lemma_sweep_settles(l, mode, *f2, e);
            lemma_sweep_settles(l, mode, *f1, mid);
            assert(out == sweep(l, mode, f1.spec_subformulas(), mid));
            assert(alike(mid, out, f2.declared())) by {
                assert forall|x: VarName| #[trigger] f2.declared().contains(x) implies mid[x] == out[x]
                    && (mid.contains_key(x) == out.contains_key(x)) by {
                    assert(!f1.declared().contains(x));
                }
            }
            assert(alike(e, e, f2.declared()));
            lemma_settled_frame(l, mode, *f2, e, mid, e, out);
            assert(alike(mid, e, f1.declared())) by {
                assert forall|x: VarName| #[trigger] f1.declared().contains(x) implies mid[x] == e[x]
                    && (mid.contains_key(x) == e.contains_key(x)) by {
                    assert(!f2.declared().contains(x));
                }
            }
            assert(alike(out, out, f1.declared()));
            lemma_settled_frame(l, mode, *f1, mid, out, e, out);
            assert forall|x: VarName| !(#[trigger] h.declared().contains(x)) implies e[x] == out[x] && (
            e.contains_key(x) == out.contains_key(x)) by {
                assert(!f1.declared().contains(x));
                assert(!f2.declared().contains(x));
            }
            assert forall|x: VarName| #[trigger] e.contains_key(x) implies out.contains_key(x) by {
                assert(mid.contains_key(x));
            }
        },
    }
}

/// A sweep keeps an environment within the states.
pub proof fn lemma_sweep_within(l: LtsView, mode: Option<bool>, nodes: Seq<Formula>, e: Valuation)
    requires
        within(l, e),
    ensures
        within(l, sweep(l, mode, nodes, e)),
    decreases nodes.len(),
{
    if nodes.len() > 0 {
        let first = touch(l, mode, nodes[0], e);
        assert(within(l, first)) by {
            match nodes[0] {
                Formula::Mu { var, .. } => {
                    if touched(mode, nodes[0]) {
                        lemma_within_insert(l, e, var, start(l, true));
                    }
                },
                Formula::Nu { var, .. } => {
                    if touched(mode, nodes[0]) {
                        lemma_within_insert(l, e, var, start(l, false));
                    }
                },
                _ => {},
            }
        }
        lemma_sweep_within(l, mode, nodes.drop_first(), first);
    }
}

/// After a seeding, every variable that the formula binds is bound.
pub proof fn lemma_seeded_bound(l: LtsView, h: Formula, e0: Valuation, e1: Valuation)
    requires
        settled(l, None, h, e0, e1),
    ensures
        h.declared().subset_of(e1.dom()),
    decreases h,
{
    match h {
        Formula::True | Formula::False | Formula::Var { .. } => {},
        Formula::Box { f, .. } | Formula::Diamond { f, .. } => {
            lemma_seeded_bound(l, *f, e0, e1);
        },
        Formula::And { f1, f2 } | Formula::Or { f1, f2 } => {
            lemma_seeded_bound(l, *f1, e0, e1);
            lemma_seeded_bound(l, *f2, e0, e1);
        },
        Formula::Mu { var, f } | Formula::Nu { var, f } => {
            lemma_seeded_bound(l, *f, e0, e1);
        },
    }
}

} // verus!
