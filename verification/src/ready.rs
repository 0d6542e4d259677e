//! Environments from which the improved evaluation of a formula comes to
//! the right result.

use crate::fixpoint::fix;
use crate::fixpoint::good;
use crate::fixpoint::lemma_good_frame;
use crate::fixpoint::lemma_good_grow;
use crate::fixpoint::lemma_good_start;
use crate::fixpoint::start;
use crate::lts::LtsView;
use crate::lts::State;
use crate::mu_calculus::Formula;
use crate::mu_calculus::VarName;
use crate::semantics::Valuation;
use crate::semantics::agree_on;
use crate::semantics::bounded_on;
use crate::semantics::le_on;
use crate::sweep::alike;
use crate::sweep::settled;
use crate::sweep::touched;
use vstd::prelude::*;

verus! {

/// Where a subformula stands among the binders around it: under none,
/// under binders of one kind only, the innermost of which is least
/// (`true`) or greatest, or somewhere below a change of kind.
pub enum Scope {
    Top,
    Under(bool),
    Cut,
}

/// A binder of the given kind that stands in `scope` is reached without a
/// change of kind.
pub open spec fn exposed(scope: Scope, least: bool) -> bool {
    scope is Top || scope == Scope::Under(least)
}

/// The scope of the body of a binder of the given kind that stands in
/// `scope`.
pub open spec fn below(scope: Scope, least: bool) -> Scope {
    if exposed(scope, least) {
        Scope::Under(least)
    } else {
        Scope::Cut
    }
}

/// The scope that the innermost binder around a formula gives.
pub open spec fn scope_of(prev: Option<&Formula>) -> Scope {
    match prev {
        Some(Formula::Mu { .. }) => Scope::Under(true),
        Some(Formula::Nu { .. }) => Scope::Under(false),
        _ => Scope::Top,
    }
}

/// Every binder in `h` that the evaluation may come to without resetting
/// its variable first has a variable that stands for a good set: the
/// binders that are not open, and those that are reached without a change
/// of kind.
pub open spec fn ready(l: LtsView, h: Formula, scope: Scope, e: Valuation) -> bool
    decreases h,
{
    match h {
        Formula::True | Formula::False | Formula::Var { .. } => true,
        Formula::Box { f, .. } | Formula::Diamond { f, .. } => ready(l, *f, scope, e),
        Formula::And { f1, f2 } | Formula::Or { f1, f2 } => ready(l, *f1, scope, e) && ready(
            l,
            *f2,
            scope,
            e,
        ),
        Formula::Mu { var, f } => {
            &&& exposed(scope, true) || !h.spec_is_open() ==> good(l, true, var, *f, e, e[var])
            &&& ready(l, *f, below(scope, true), e)
        },
        Formula::Nu { var, f } => {
            &&& exposed(scope, false) || !h.spec_is_open() ==> good(l, false, var, *f, e, e[var])
            &&& ready(l, *f, below(scope, false), e)
        },
    }
}

/// Whether an environment is ready for a formula is a matter of the
/// variables of the formula only.
pub proof fn lemma_ready_frame(l: LtsView, h: Formula, scope: Scope, e1: Valuation, e2: Valuation)
    requires
        alike(e1, e2, h.free().union(h.declared())),
        ready(l, h, scope, e1),
    ensures
        ready(l, h, scope, e2),
    decreases h,
{
    let vars = h.free().union(h.declared());
    match h {
        Formula::True | Formula::False | Formula::Var { .. } => {},
        Formula::Box { f, .. } | Formula::Diamond { f, .. } => {
            lemma_ready_frame(l, *f, scope, e1, e2);
        },
        Formula::And { f1, f2 } | Formula::Or { f1, f2 } => {
            assert forall|x: VarName| #[trigger]
                f1.free().union(f1.declared()).contains(x) implies vars.contains(x) by {}
            assert forall|x: VarName| #[trigger]
                f2.free().union(f2.declared()).contains(x) implies vars.contains(x) by {}
            lemma_ready_frame(l, *f1, scope, e1, e2);
            lemma_ready_frame(l, *f2, scope, e1, e2);
        },
        Formula::Mu { var, f } => {
            lemma_ready_frame_binder(l, true, var, *f, h, e1, e2);
            lemma_ready_frame(l, *f, below(scope, true), e1, e2);
        },
        Formula::Nu { var, f } => {
            lemma_ready_frame_binder(l, false, var, *f, h, e1, e2);
            lemma_ready_frame(l, *f, below(scope, false), e1, e2);
        },
    }
}

/// The part of `lemma_ready_frame` that concerns one binder.
proof fn lemma_ready_frame_binder(
    l: LtsView,
    least: bool,
    var: VarName,
    body: Formula,
    h: Formula,
    e1: Valuation,
    e2: Valuation,
)
    requires
        h == fix(least, var, body),
        alike(e1, e2, h.free().union(h.declared())),
    ensures
        alike(e1, e2, body.free().union(body.declared())),
        e1[var] == e2[var],
        good(l, least, var, body, e1, e1[var]) ==> good(l, least, var, body, e2, e2[var]),
{
    let vars = h.free().union(h.declared());
    assert(vars.contains(var));
    assert forall|x: VarName| #[trigger]
        body.free().union(body.declared()).contains(x) implies vars.contains(x) by {}
    assert(agree_on(e1, e2, body.free().remove(var))) by {
        assert forall|x: VarName| body.free().remove(var).contains(x) implies #[trigger] e1[x]
            == e2[x] by {
            assert(vars.contains(x));
        }
    }
    if good(l, least, var, body, e1, e1[var]) {
        lemma_good_frame(l, least, var, body, e1, e2, e1[var]);
    }
}

/// An environment that is ready for a formula in some scope is ready for
/// it below a change of kind.
pub proof fn lemma_ready_weaken(l: LtsView, h: Formula, scope: Scope, e: Valuation)
    requires
        ready(l, h, scope, e),
    ensures
        ready(l, h, Scope::Cut, e),
    decreases h,
{
    match h {
        Formula::True | Formula::False | Formula::Var { .. } => {},
        Formula::Box { f, .. } | Formula::Diamond { f, .. } => {
            lemma_ready_weaken(l, *f, scope, e);
        },
        Formula::And { f1, f2 } | Formula::Or { f1, f2 } => {
            lemma_ready_weaken(l, *f1, scope, e);
            lemma_ready_weaken(l, *f2, scope, e);
        },
        Formula::Mu { var, f } => {
            lemma_ready_weaken(l, *f, below(scope, true), e);
        },
        Formula::Nu { var, f } => {
            lemma_ready_weaken(l, *f, below(scope, false), e);
        },
    }
}

/// An environment stays ready for the body of a binder when the variable
/// of the binder moves the way its iteration goes.
pub proof fn lemma_ready_grow(
    l: LtsView,
    h: Formula,
    scope: Scope,
    least: bool,
    e: Valuation,
    x: VarName,
    v: Set<State>,
)
    requires
        scope is Cut || scope == Scope::Under(least),
        h.scoped(),
        !h.declared().contains(x),
        least ==> e[x].subset_of(v),
        !least ==> v.subset_of(e[x]),
        ready(l, h, scope, e),
    ensures
        ready(l, h, scope, e.insert(x, v)),
    decreases h,
{
    match h {
        Formula::True | Formula::False | Formula::Var { .. } => {},
        Formula::Box { f, .. } | Formula::Diamond { f, .. } => {
            lemma_ready_grow(l, *f, scope, least, e, x, v);
        },
        Formula::And { f1, f2 } | Formula::Or { f1, f2 } => {
            lemma_ready_grow(l, *f1, scope, least, e, x, v);
            lemma_ready_grow(l, *f2, scope, least, e, x, v);
        },
        Formula::Mu { var, f } => {
            lemma_ready_grow_binder(l, true, var, *f, h, scope, least, e, x, v);
            lemma_ready_grow(l, *f, below(scope, true), least, e, x, v);
        },
        Formula::Nu { var, f } => {
            lemma_ready_grow_binder(l, false, var, *f, h, scope, least, e, x, v);
            lemma_ready_grow(l, *f, below(scope, false), least, e, x, v);
        },
    }
}

/// The part of `lemma_ready_grow` that concerns one binder.
proof fn lemma_ready_grow_binder(
    l: LtsView,
    kind: bool,
    var: VarName,
    body: Formula,
    h: Formula,
    scope: Scope,
    least: bool,
    e: Valuation,
    x: VarName,
    v: Set<State>,
)
    requires
        h == fix(kind, var, body),
        scope is Cut || scope == Scope::Under(least),
        h.scoped(),
        !h.declared().contains(x),
        least ==> e[x].subset_of(v),
        !least ==> v.subset_of(e[x]),
        exposed(scope, kind) || !h.spec_is_open() ==> good(l, kind, var, body, e, e[var]),
    ensures
        below(scope, kind) is Cut || below(scope, kind) == Scope::Under(least),
        exposed(scope, kind) || !h.spec_is_open() ==> good(
            l,
            kind,
            var,
            body,
            e.insert(x, v),
            e.insert(x, v)[var],
        ),
{
    let e2 = e.insert(x, v);
    let fv = body.free().remove(var);
    assert(h.declared().contains(var));
    assert(e2[var] == e[var]);
    if exposed(scope, kind) {
        assert(kind == least);
        if least {
            assert(le_on(e, e2, fv)) by {
                assert forall|y: VarName| fv.contains(y) implies (#[trigger] e[y]).subset_of(e2[y]) by {}
            }
        } else {
            assert(le_on(e2, e, fv)) by {
                assert forall|y: VarName| fv.contains(y) implies (#[trigger] e2[y]).subset_of(e[y]) by {}
            }
        }
        lemma_good_grow(l, kind, var, body, e, e2, e[var]);
    } else if !h.spec_is_open() {
        h.lemma_scoped();
        assert(h.free() =~= Set::<VarName>::empty());
        assert(fv =~= Set::<VarName>::empty());
        assert(agree_on(e, e2, fv));
        lemma_good_frame(l, kind, var, body, e, e2, e[var]);
    }
}

/// After a sweep, the environment is ready for the formula swept: after
/// a seeding in every scope, after a reset of the binders of one kind
/// under binders of that kind, if it was ready below a change of kind
/// before.
pub proof fn lemma_ready_settled(
    l: LtsView,
    mode: Option<bool>,
    h: Formula,
    scope: Scope,
    e0: Valuation,
    e1: Valuation,
)
    requires
        h.scoped(),
        settled(l, mode, h, e0, e1),
        bounded_on(l, e1, h.free().union(h.declared())),
        mode matches Some(least) ==> ready(l, h, Scope::Cut, e0) && (scope is Cut || scope
            == Scope::Under(least)),
    ensures
        ready(l, h, scope, e1),
    decreases h,
{
    let vars = h.free().union(h.declared());
    match h {
        Formula::True | Formula::False | Formula::Var { .. } => {},
        Formula::Box { f, .. } | Formula::Diamond { f, .. } => {
            lemma_ready_settled(l, mode, *f, scope, e0, e1);
        },
        Formula::And { f1, f2 } | Formula::Or { f1, f2 } => {
            assert(bounded_on(l, e1, f1.free().union(f1.declared()))) by {
                assert forall|x: VarName| f1.free().union(f1.declared()).contains(x) implies (
                #[trigger] e1[x]).subset_of(l.states) by {
                    assert(vars.contains(x));
                }
            }
            assert(bounded_on(l, e1, f2.free().union(f2.declared()))) by {
                assert forall|x: VarName| f2.free().union(f2.declared()).contains(x) implies (
                #[trigger] e1[x]).subset_of(l.states) by {
                    assert(vars.contains(x));
                }
            }
            lemma_ready_settled(l, mode, *f1, scope, e0, e1);
            lemma_ready_settled(l, mode, *f2, scope, e0, e1);
        },
        Formula::Mu { var, f } => {
            lemma_ready_settled_binder(l, mode, true, var, *f, h, scope, e0, e1);
            lemma_ready_settled(l, mode, *f, below(scope, true), e0, e1);
        },
        Formula::Nu { var, f } => {
            lemma_ready_settled_binder(l, mode, false, var, *f, h, scope, e0, e1);
            lemma_ready_settled(l, mode, *f, below(scope, false), e0, e1);
        },
    }
}

/// The part of `lemma_ready_settled` that concerns one binder.
proof fn lemma_ready_settled_binder(
    l: LtsView,
    mode: Option<bool>,
    kind: bool,
    var: VarName,
    body: Formula,
    h: Formula,
    scope: Scope,
    e0: Valuation,
    e1: Valuation,
)
    requires
        h == fix(kind, var, body),
        h.scoped(),
        e1[var] == if touched(mode, h) {
            start(l, kind)
        } else {
            e0[var]
        },
        bounded_on(l, e1, h.free().union(h.declared())),
        mode matches Some(least) ==> (scope is Cut || scope == Scope::Under(least)) && (
        !h.spec_is_open() ==> good(l, kind, var, body, e0, e0[var])),
    ensures
        bounded_on(l, e1, body.free().union(body.declared())),
        mode matches Some(least) ==> (below(scope, kind) is Cut || below(scope, kind)
            == Scope::Under(least)),
        exposed(scope, kind) || !h.spec_is_open() ==> good(l, kind, var, body, e1, e1[var]),
{
    let vars = h.free().union(h.declared());
    let fv = body.free().remove(var);
    assert(h.declared().contains(var));
    assert forall|x: VarName| body.free().union(body.declared()).contains(x) implies (
    #[trigger] e1[x]).subset_of(l.states) by {
        assert(vars.contains(x));
    }
    assert(bounded_on(l, e1, fv)) by {
        assert forall|x: VarName| fv.contains(x) implies (#[trigger] e1[x]).subset_of(l.states) by {
            assert(vars.contains(x));
        }
    }
    if exposed(scope, kind) || !h.spec_is_open() {
        if touched(mode, h) {
            lemma_good_start(l, kind, var, body, e1);
        } else {
            assert(!h.spec_is_open());
            h.lemma_scoped();
            assert(h.free() =~= Set::<VarName>::empty());
            assert(fv =~= Set::<VarName>::empty());
            assert(agree_on(e0, e1, fv));
            lemma_good_frame(l, kind, var, body, e0, e1, e0[var]);
        }
    }
}

} // verus!
