//! The work of the two evaluators compared: where the improved evaluator
//! keeps step with the naive one, it makes no more fixed-point iterations.

use crate::env::kept;
use crate::env::lemma_within_insert;
use crate::env::within;
use crate::fixpoint::distance;
use crate::fixpoint::fix;
use crate::fixpoint::good;
use crate::fixpoint::image;
use crate::fixpoint::lemma_good_fixed;
use crate::fixpoint::lemma_good_frame;
use crate::fixpoint::lemma_good_start;
use crate::fixpoint::lemma_good_step;
use crate::fixpoint::lemma_limit;
use crate::fixpoint::lemma_rounds_frame;
use crate::fixpoint::lemma_rounds_nearer;
use crate::fixpoint::limit;
use crate::fixpoint::rounds;
use crate::fixpoint::start;
use crate::improved::entered;
use crate::improved::improved_loop;
use crate::improved::improved_run;
use crate::improved::lemma_distance_bound;
use crate::improved::lemma_enter;
use crate::improved::lemma_kept_bound;
use crate::improved::lemma_parts;
use crate::lts::LtsView;
use crate::lts::State;
use crate::mu_calculus::Formula;
use crate::mu_calculus::VarName;
use crate::naive::naive_iterations;
use crate::naive::naive_loop;
use crate::ready::Scope;
use crate::ready::below;
use crate::ready::exposed;
use crate::ready::lemma_ready_grow;
use crate::ready::lemma_ready_weaken;
use crate::ready::ready;
use crate::semantics::Valuation;
use crate::semantics::agree_on;
use crate::semantics::bounded_on;
use crate::semantics::lemma_sem_frame;
use crate::semantics::sem;
use crate::sweep::alike;
use crate::sweep::lemma_sweep_settles;
use crate::sweep::settled;
use crate::sweep::sweep;
use vstd::prelude::*;

verus! {

/// A formula without binders takes no iteration, changes no environment
/// and finds every environment ready.
pub proof fn lemma_plain(l: LtsView, h: Formula, scope: Scope, e: Valuation)
    requires
        h.spec_nesting_depth() == 0,
    ensures
        improved_run(l, h, scope, e) == (e, 0nat),
        naive_iterations(l, h, e) == 0,
        ready(l, h, scope, e),
        h.declared() =~= Set::<VarName>::empty(),
    decreases h,
{
    match h {
        Formula::True | Formula::False | Formula::Var { .. } => {},
        Formula::Box { f, .. } | Formula::Diamond { f, .. } => {
            lemma_plain(l, *f, scope, e);
        },
        Formula::And { f1, f2 } | Formula::Or { f1, f2 } => {
            lemma_plain(l, *f1, scope, e);
            lemma_plain(l, *f2, scope, e);
        },
        Formula::Mu { .. } | Formula::Nu { .. } => {},
    }
}

/// The naive iteration of a body without binders takes as many
/// iterations as it makes rounds.
pub proof fn lemma_naive_plain_loop(
    l: LtsView,
    body: Formula,
    var: VarName,
    e: Valuation,
    cur: Set<State>,
    fuel: nat,
)
    requires
        body.spec_nesting_depth() == 0,
    ensures
        naive_loop(l, body, var, e, cur, fuel) == rounds(l, var, body, e, cur, fuel),
    decreases fuel,
{
    lemma_plain(l, body, Scope::Top, e.insert(var, cur));
    if !(image(l, var, body, e, cur) == cur || fuel == 0) {
        lemma_naive_plain_loop(l, body, var, e, image(l, var, body, e, cur), (fuel - 1) as nat);
    }
}

/// The improved iteration of a body without binders takes as many
/// iterations as it makes rounds from the set that the variable stands
/// for, and leaves the variable with what the rounds end with.
pub proof fn lemma_improved_plain_loop(
    l: LtsView,
    least: bool,
    var: VarName,
    body: Formula,
    e: Valuation,
    fuel: nat,
)
    requires
        body.spec_nesting_depth() == 0,
    ensures
        improved_loop(l, least, var, body, e, fuel) == (
            e.insert(var, limit(l, var, body, e, e[var], fuel)),
            rounds(l, var, body, e, e[var], fuel),
        ),
    decreases fuel,
{
    lemma_plain(l, body, Scope::Under(least), e);
    assert(agree_on(e, e.insert(var, e[var]), body.free()));
    lemma_sem_frame(l, body, e, e.insert(var, e[var]));
    let new = sem(l, body, e);
    let next = e.insert(var, new);
    assert(new == image(l, var, body, e, e[var]));
    if !(new == e[var] || fuel == 0) {
        lemma_improved_plain_loop(l, least, var, body, next, (fuel - 1) as nat);
        assert(agree_on(next, e, body.free().remove(var)));
        lemma_rounds_frame(l, var, body, next, e, new, (fuel - 1) as nat);
        assert(next.insert(var, limit(l, var, body, e, new, (fuel - 1) as nat)) =~= e.insert(
            var,
            limit(l, var, body, e, e[var], fuel),
        ));
    }
}

/// The iteration of the binder `h` begins from no state, or from every
/// state, as that of the naive evaluator does: `h` stands outside all
/// binders, where its variable is seeded and the evaluation comes to it
/// once, or it is open and stands right under a binder of the other kind,
/// which resets it.
pub open spec fn begins_afresh(h: Formula, least: bool, scope: Scope) -> bool {
    scope is Top || (scope == Scope::Under(!least) && h.spec_is_open())
}

/// The improved evaluation of `h` in `scope` keeps step with the naive
/// one: every binder in `h` has a body without binders, or begins its
/// iteration afresh and has a body of which, under it, the same holds.
pub open spec fn steady(h: Formula, scope: Scope) -> bool
    decreases h,
{
    match h {
        Formula::True | Formula::False | Formula::Var { .. } => true,
        Formula::Box { f, .. } | Formula::Diamond { f, .. } => steady(*f, scope),
        Formula::And { f1, f2 } | Formula::Or { f1, f2 } => steady(*f1, scope) && steady(
            *f2,
            scope,
        ),
        Formula::Mu { f, .. } => f.spec_nesting_depth() == 0 || (begins_afresh(h, true, scope)
            && steady(*f, Scope::Under(true))),
        Formula::Nu { f, .. } => f.spec_nesting_depth() == 0 || (begins_afresh(h, false, scope)
            && steady(*f, Scope::Under(false))),
    }
}

/// Whether the improved evaluation of `h` in `scope` keeps step with the
/// naive one.
pub fn keeps_step(h: &Formula, scope: Scope) -> (b: bool)
    ensures
        b == steady(*h, scope),
    decreases *h,
{
    match h {
        Formula::True | Formula::False | Formula::Var { .. } => true,
        Formula::Box { f, .. } | Formula::Diamond { f, .. } => keeps_step(f, scope),
        Formula::And { f1, f2 } | Formula::Or { f1, f2 } => {
            let other = match scope {
                Scope::Top => Scope::Top,
                Scope::Under(kind) => Scope::Under(kind),
                Scope::Cut => Scope::Cut,
            };
            keeps_step(f1, scope) && keeps_step(f2, other)
        },
        Formula::Mu { f, .. } => {
            let afresh = match scope {
                Scope::Top => true,
                Scope::Under(kind) => !kind && h.is_open(),
                Scope::Cut => false,
            };
            f.depth_within(0) || (afresh && keeps_step(f, Scope::Under(true)))
        },
        Formula::Nu { f, .. } => {
            let afresh = match scope {
                Scope::Top => true,
                Scope::Under(kind) => kind && h.is_open(),
                Scope::Cut => false,
            };
            f.depth_within(0) || (afresh && keeps_step(f, Scope::Under(false)))
        },
    }
}

/// A formula that nests binders at most one deep is steady everywhere,
/// and one that nests them at most two deep is steady outside all
/// binders.
pub proof fn lemma_shallow_steady(h: Formula, scope: Scope)
    requires
        h.spec_nesting_depth() <= 1 || (h.spec_nesting_depth() <= 2 && scope is Top),
    ensures
        steady(h, scope),
    decreases h,
{
    match h {
        Formula::True | Formula::False | Formula::Var { .. } => {},
        Formula::Box { f, .. } | Formula::Diamond { f, .. } => {
            lemma_shallow_steady(*f, scope);
        },
        Formula::And { f1, f2 } | Formula::Or { f1, f2 } => {
            lemma_shallow_steady(*f1, scope);
            lemma_shallow_steady(*f2, scope);
        },
        Formula::Mu { f, .. } => {
            if f.spec_nesting_depth() != 0 {
                lemma_shallow_steady(*f, Scope::Under(true));
            }
        },
        Formula::Nu { f, .. } => {
            if f.spec_nesting_depth() != 0 {
                lemma_shallow_steady(*f, Scope::Under(false));
            }
        },
    }
}

/// A steady formula takes no more iterations of the improved evaluator
/// than of the naive one, and the improved evaluator leaves the
/// environment ready for it again.
pub proof fn lemma_steady(l: LtsView, h: Formula, scope: Scope, e: Valuation, base: Valuation)
    requires
        l.wf(),
        steady(h, scope),
        h.scoped(),
        h.distinct_binders(),
        !(scope is Cut),
        h.free().subset_of(e.dom()),
        h.declared().subset_of(e.dom()),
        within(l, e),
        ready(l, h, scope, e),
        scope is Top ==> settled(l, None, h, e, e),
        agree_on(e, base, h.free()),
    ensures
        improved_run(l, h, scope, e).1 <= naive_iterations(l, h, base),
        kept(e, improved_run(l, h, scope, e).0, h.declared()),
        within(l, improved_run(l, h, scope, e).0),
        ready(l, h, scope, improved_run(l, h, scope, e).0),
    decreases h, 1nat,
{
    match h {
        Formula::True | Formula::False | Formula::Var { .. } => {},
        Formula::Box { f, .. } | Formula::Diamond { f, .. } => {
            lemma_steady(l, *f, scope, e, base);
        },
        Formula::And { f1, f2 } | Formula::Or { f1, f2 } => {
            lemma_steady_parts(l, *f1, *f2, h, scope, e, base);
        },
        Formula::Mu { var, f } => {
            if f.spec_nesting_depth() == 0 {
                lemma_flat_binder(l, true, var, *f, h, scope, e, base);
            } else {
                lemma_steady_binder(l, true, var, *f, h, scope, e, base);
            }
        },
        Formula::Nu { var, f } => {
            if f.spec_nesting_depth() == 0 {
                lemma_flat_binder(l, false, var, *f, h, scope, e, base);
            } else {
                lemma_steady_binder(l, false, var, *f, h, scope, e, base);
            }
        },
    }
}

/// The part of `lemma_steady` that concerns a formula of two parts.
#[verifier::rlimit(30)]
proof fn lemma_steady_parts(
    l: LtsView,
    f1: Formula,
    f2: Formula,
    h: Formula,
    scope: Scope,
    e: Valuation,
    base: Valuation,
)
    requires
        h == (Formula::And { f1: Box::new(f1), f2: Box::new(f2) }) || h == (Formula::Or {
            f1: Box::new(f1),
            f2: Box::new(f2),
        }),
        l.wf(),
        steady(h, scope),
        h.scoped(),
        h.distinct_binders(),
        !(scope is Cut),
        h.free().subset_of(e.dom()),
        h.declared().subset_of(e.dom()),
        within(l, e),
        ready(l, h, scope, e),
        scope is Top ==> settled(l, None, h, e, e),
        agree_on(e, base, h.free()),
    ensures
        improved_run(l, h, scope, e).1 <= naive_iterations(l, h, base),
        kept(e, improved_run(l, h, scope, e).0, h.declared()),
        within(l, improved_run(l, h, scope, e).0),
        ready(l, h, scope, improved_run(l, h, scope, e).0),
    decreases h, 0nat,
{
    lemma_steady(l, f1, scope, e, base);
    let first = improved_run(l, f1, scope, e);
    lemma_parts(l, f1, f2, scope, e, first.0);
    assert(agree_on(first.0, base, f2.free())) by {
        assert forall|x: VarName| f2.free().contains(x) implies #[trigger] first.0[x] == base[x] by {
            assert(e.dom().contains(x));
            assert(e.contains_key(x));
            assert(e[x] == base[x]);
        }
    }
    if scope is Top {
        assert(alike(e, first.0, f2.declared())) by {
            assert forall|x: VarName| #[trigger] f2.declared().contains(x) implies e[x]
                == first.0[x] && (e.contains_key(x) == first.0.contains_key(x)) by {
                assert(e.dom().contains(x));
                assert(e.contains_key(x));
            }
        }
        lemma_seeded_kept(l, f2, e, first.0);
    }
    lemma_steady(l, f2, scope, first.0, base);
    let second = improved_run(l, f2, scope, first.0);
    lemma_kept_bound(e, first.0, f1.declared(), f1.free());
    lemma_kept_bound(e, first.0, f1.declared(), f1.declared());
    lemma_parts(l, f2, f1, scope, first.0, second.0);
    assert forall|x: VarName| #[trigger] e.contains_key(x) implies second.0.contains_key(x) && (
    !h.declared().contains(x) ==> second.0[x] == e[x]) by {
        assert(first.0.contains_key(x));
    }
}

/// The part of `lemma_steady` that concerns a binder that begins its
/// iteration afresh.
#[verifier::rlimit(50)]
proof fn lemma_steady_binder(
    l: LtsView,
    least: bool,
    var: VarName,
    body: Formula,
    h: Formula,
    scope: Scope,
    e: Valuation,
    base: Valuation,
)
    requires
        h == fix(least, var, body),
        l.wf(),
        begins_afresh(h, least, scope),
        steady(body, Scope::Under(least)),
        h.scoped(),
        h.distinct_binders(),
        !(scope is Cut),
        h.free().subset_of(e.dom()),
        h.declared().subset_of(e.dom()),
        within(l, e),
        ready(l, h, scope, e),
        scope is Top ==> e[var] == start(l, least),
        agree_on(e, base, h.free()),
    ensures
        improved_run(l, h, scope, e).1 <= naive_iterations(l, h, base),
        kept(e, improved_run(l, h, scope, e).0, h.declared()),
        within(l, improved_run(l, h, scope, e).0),
        ready(l, h, scope, improved_run(l, h, scope, e).0),
    decreases h, 0nat,
{
    let n = l.states.len();
    let fv = body.free().remove(var);
    let alternates = scope == Scope::Under(!least);
    let e0 = entered(l, least, h, scope, e);
    lemma_enter(l, least, var, body, h, scope, alternates, e, e0);
    h.lemma_scoped();
    if alternates {
        lemma_sweep_settles(l, Some(least), h, e);
    }
    assert(e0[var] == start(l, least));
    assert(agree_on(e0, base, fv)) by {
        assert forall|x: VarName| fv.contains(x) implies #[trigger] e0[x] == base[x] by {
            assert(h.free().contains(x));
            assert(e.dom().contains(x));
            assert(e.contains_key(x));
            assert(!h.declared().contains(x));
            assert(e[x] == base[x]);
        }
    }
    assert(bounded_on(l, base, fv)) by {
        assert forall|x: VarName| fv.contains(x) implies (#[trigger] base[x]).subset_of(l.states) by {
            assert(e0.dom().contains(x));
            assert(e0.contains_key(x));
            assert(e0[x] == base[x]);
        }
    }
    lemma_good_start(l, least, var, body, base);
    lemma_distance_bound(l, least, start(l, least));
    lemma_lockstep(l, least, var, body, e0, base, start(l, least), n);
    let out = improved_loop(l, least, var, body, e0, n).0;
    assert forall|x: VarName| #[trigger] e.contains_key(x) implies out.contains_key(x) && (
    !h.declared().contains(x) ==> out[x] == e[x]) by {
        assert(e0.contains_key(x));
    }
    // The environment that is left is ready for the binder again.
    lemma_good_fixed(l, least, var, body, base);
    body.lemma_scoped();
    assert(agree_on(base, out, fv)) by {
        assert forall|x: VarName| fv.contains(x) implies #[trigger] base[x] == out[x] by {
            assert(e0.dom().contains(x));
            assert(e0.contains_key(x));
            assert(!body.declared().insert(var).contains(x));
            assert(e0[x] == base[x]);
        }
    }
    lemma_good_frame(l, least, var, body, base, out, sem(l, fix(least, var, body), base));
    if !exposed(scope, least) {
        lemma_ready_weaken(l, body, Scope::Under(least), out);
    }
}

/// The part of `lemma_flat` that concerns a binder: its body has no
/// binder.
#[verifier::rlimit(30)]
proof fn lemma_flat_binder(
    l: LtsView,
    least: bool,
    var: VarName,
    body: Formula,
    h: Formula,
    scope: Scope,
    e: Valuation,
    base: Valuation,
)
    requires
        h == fix(least, var, body),
        l.wf(),
        body.spec_nesting_depth() == 0,
        h.scoped(),
        h.distinct_binders(),
        !(scope is Cut),
        h.free().subset_of(e.dom()),
        h.declared().subset_of(e.dom()),
        within(l, e),
        ready(l, h, scope, e),
        agree_on(e, base, h.free()),
    ensures
        improved_run(l, h, scope, e).1 <= naive_iterations(l, h, base),
        kept(e, improved_run(l, h, scope, e).0, h.declared()),
        within(l, improved_run(l, h, scope, e).0),
        ready(l, h, scope, improved_run(l, h, scope, e).0),
{
    let n = l.states.len();
    let alternates = scope == Scope::Under(!least);
    let e0 = entered(l, least, h, scope, e);
    let fv = body.free().remove(var);
    lemma_enter(l, least, var, body, h, scope, alternates, e, e0);
    lemma_improved_plain_loop(l, least, var, body, e0, n);
    let cur = e0[var];
    let end = limit(l, var, body, e0, cur, n);
    let out = e0.insert(var, end);
    assert(improved_run(l, h, scope, e) == (out, rounds(l, var, body, e0, cur, n)));
    lemma_good_step(l, least, var, body, e0, cur);
    lemma_distance_bound(l, least, cur);
    lemma_limit(l, least, var, body, e0, cur, n);
    // The naive evaluator makes the rounds from the start.
    h.lemma_scoped();
    assert(agree_on(base, e0, fv)) by {
        assert forall|x: VarName| fv.contains(x) implies #[trigger] base[x] == e0[x] by {
            assert(h.free().contains(x));
            assert(e.dom().contains(x));
            assert(e.contains_key(x));
            assert(e[x] == base[x]);
        }
    }
    lemma_naive_plain_loop(l, body, var, base, start(l, least), n);
    lemma_rounds_frame(l, var, body, base, e0, start(l, least), n);
    lemma_good_start(l, least, var, body, e0);
    lemma_rounds_nearer(l, least, var, body, e0, start(l, least), cur, n);
    // The environment that is left.
    crate::fixpoint::lemma_fix_bounded(l, least, var, body, e0);
    lemma_within_insert(l, e0, var, end);
    lemma_good_fixed(l, least, var, body, e0);
    assert(agree_on(e0, out, fv));
    lemma_good_frame(l, least, var, body, e0, out, end);
    lemma_plain(l, body, below(scope, least), out);
    assert forall|x: VarName| #[trigger] e.contains_key(x) implies out.contains_key(x) && (
    !h.declared().contains(x) ==> out[x] == e[x]) by {
        assert(e0.contains_key(x));
    }
}

/// The improved iteration of a steady body takes no more iterations than
/// the naive iteration from the same set, and ends with the fixed point.
#[verifier::rlimit(50)]
pub proof fn lemma_lockstep(
    l: LtsView,
    least: bool,
    var: VarName,
    body: Formula,
    now: Valuation,
    base: Valuation,
    cur: Set<State>,
    fuel: nat,
)
    requires
        l.wf(),
        steady(body, Scope::Under(least)),
        body.scoped(),
        body.distinct_binders(),
        !body.declared().contains(var),
        body.free().remove(var).subset_of(now.dom()),
        body.declared().subset_of(now.dom()),
        now.contains_key(var),
        now[var] == cur,
        within(l, now),
        agree_on(now, base, body.free().remove(var)),
        good(l, least, var, body, base, cur),
        ready(l, body, Scope::Under(least), now),
        fuel >= distance(l, least, cur),
    ensures
        improved_loop(l, least, var, body, now, fuel).1 <= naive_loop(l, body, var, base, cur, fuel),
        kept(now, improved_loop(l, least, var, body, now, fuel).0, body.declared().insert(var)),
        within(l, improved_loop(l, least, var, body, now, fuel).0),
        ready(l, body, Scope::Under(least), improved_loop(l, least, var, body, now, fuel).0),
        improved_loop(l, least, var, body, now, fuel).0[var] == sem(
            l,
            fix(least, var, body),
            base,
        ),
    decreases body, 2 + fuel,
{
    let fv = body.free().remove(var);
    body.lemma_scoped();
    assert(bounded_on(l, base, fv)) by {
        assert forall|x: VarName| fv.contains(x) implies (#[trigger] base[x]).subset_of(l.states) by {
            assert(now.dom().contains(x));
            assert(now.contains_key(x));
            assert(now[x] == base[x]);
        }
    }
    assert(body.free().subset_of(now.dom())) by {
        assert forall|x: VarName| body.free().contains(x) implies now.dom().contains(x) by {
            if x != var {
                assert(fv.contains(x));
            }
        }
    }
    assert(agree_on(now, base.insert(var, cur), body.free())) by {
        assert forall|x: VarName| body.free().contains(x) implies #[trigger] now[x] == base.insert(
            var,
            cur,
        )[x] by {
            if x != var {
                assert(fv.contains(x));
                assert(now[x] == base[x]);
            }
        }
    }
    lemma_steady(l, body, Scope::Under(least), now, base.insert(var, cur));
    lemma_sem_frame(l, body, now, base.insert(var, cur));
    lemma_good_step(l, least, var, body, base, cur);
    let inner = improved_run(l, body, Scope::Under(least), now);
    let new = sem(l, body, now);
    let next = inner.0.insert(var, new);
    assert(new == image(l, var, body, base, cur));
    assert(inner.0.contains_key(var) && inner.0[var] == cur) by {
        assert(now.contains_key(var));
    }
    lemma_within_insert(l, inner.0, var, new);
    lemma_ready_grow(l, body, Scope::Under(least), least, inner.0, var, new);
    assert forall|x: VarName| #[trigger] now.contains_key(x) implies next.contains_key(x) && (
    !body.declared().insert(var).contains(x) ==> next[x] == now[x]) by {
        assert(inner.0.contains_key(x));
    }
    if !(new == cur || fuel == 0) {
        lemma_kept_bound(now, next, body.declared().insert(var), fv);
        lemma_kept_bound(now, next, body.declared().insert(var), body.declared());
        assert(agree_on(next, base, fv)) by {
            assert forall|x: VarName| fv.contains(x) implies #[trigger] next[x] == base[x] by {
                assert(now.dom().contains(x));
                assert(now.contains_key(x));
                assert(!body.declared().contains(x));
                assert(now[x] == base[x]);
            }
        }
        lemma_lockstep(l, least, var, body, next, base, new, (fuel - 1) as nat);
        let rest = improved_loop(l, least, var, body, next, (fuel - 1) as nat);
        assert forall|x: VarName| #[trigger] now.contains_key(x) implies rest.0.contains_key(x) && (
        !body.declared().insert(var).contains(x) ==> rest.0[x] == now[x]) by {
            assert(next.contains_key(x));
        }
    }
}

/// Whatever the variables stood for before, a seeding settles a formula.
pub proof fn lemma_seeded_whatever(l: LtsView, h: Formula, b1: Valuation, b2: Valuation, a: Valuation)
    requires
        settled(l, None, h, b1, a),
    ensures
        settled(l, None, h, b2, a),
    decreases h,
{
    match h {
        Formula::True | Formula::False | Formula::Var { .. } => {},
        Formula::Box { f, .. }
        | Formula::Diamond { f, .. }
        | Formula::Mu { f, .. }
        | Formula::Nu { f, .. } => {
            lemma_seeded_whatever(l, *f, b1, b2, a);
        },
        Formula::And { f1, f2 } | Formula::Or { f1, f2 } => {
            lemma_seeded_whatever(l, *f1, b1, b2, a);
            lemma_seeded_whatever(l, *f2, b1, b2, a);
        },
    }
}

/// A seeded formula stays seeded where the variables that it binds are
/// left alone.
proof fn lemma_seeded_kept(l: LtsView, h: Formula, a1: Valuation, a2: Valuation)
    requires
        settled(l, None, h, a1, a1),
        alike(a1, a2, h.declared()),
    ensures
        settled(l, None, h, a2, a2),
    decreases h,
{
    match h {
        Formula::True | Formula::False | Formula::Var { .. } => {},
        Formula::Box { f, .. } | Formula::Diamond { f, .. } => {
            lemma_seeded_kept(l, *f, a1, a2);
        },
        Formula::Mu { var, f } | Formula::Nu { var, f } => {
            assert(h.declared().contains(var));
            assert forall|x: VarName| #[trigger] f.declared().contains(x) implies h.declared().contains(
                x,
            ) by {}
            lemma_seeded_kept(l, *f, a1, a2);
        },
        Formula::And { f1, f2 } | Formula::Or { f1, f2 } => {
            assert forall|x: VarName| #[trigger] f1.declared().contains(x) implies h.declared().contains(
                x,
            ) by {}
            assert forall|x: VarName| #[trigger] f2.declared().contains(x) implies h.declared().contains(
                x,
            ) by {}
            lemma_seeded_kept(l, *f1, a1, a2);
            lemma_seeded_kept(l, *f2, a1, a2);
        },
    }
}

} // verus!
