//! The improved evaluator: a fixed point is computed from where the last
//! computation of it ended, unless its binder is open and the evaluation
//! comes to it from a binder of the other kind.

use crate::env::Env;
use crate::env::kept;
use crate::env::lemma_tracks;
use crate::env::lemma_within_insert;
use crate::env::tracks;
use crate::env::within;
use crate::fixpoint::distance;
use crate::fixpoint::fix;
use crate::fixpoint::good;
use crate::fixpoint::image;
use crate::fixpoint::lemma_good_frame;
use crate::fixpoint::lemma_good_step;
use crate::fixpoint::lemma_wrapped_add;
use crate::fixpoint::lemma_wrapped_same;
use crate::fixpoint::start;
use crate::fixpoint::wrapped;
use crate::lts::Lts;
use crate::lts::LtsView;
use crate::lts::State;
use crate::modal::all_successors;
use crate::modal::some_successor;
use crate::mu_calculus::Formula;
use crate::mu_calculus::VarName;
use crate::ready::Scope;
use crate::ready::exposed;
use crate::ready::lemma_ready_frame;
use crate::ready::lemma_ready_grow;
use crate::ready::lemma_ready_settled;
use crate::ready::lemma_ready_weaken;
use crate::ready::ready;
use crate::ready::scope_of;
use crate::semantics::Valuation;
use crate::semantics::agree_on;
use crate::semantics::bounded_on;
use crate::semantics::lemma_sem_frame;
use crate::semantics::satisfying;
use crate::semantics::sem;
use crate::sets::equal;
use crate::sets::intersection;
use crate::sets::union;
use crate::sweep::alike;
use crate::sweep::lemma_seeded_bound;
use crate::sweep::lemma_sweep_settles;
use crate::sweep::lemma_sweep_within;
use crate::sweep::sweep;
use std::collections::BTreeSet;
use vstd::prelude::*;

verus! {

/// What the improved evaluation of `h` in `scope` makes of the
/// environment `e`, and the number of fixed-point iterations that it makes.
pub open spec fn improved_run(l: LtsView, h: Formula, scope: Scope, e: Valuation) -> (
    Valuation,
    nat,
)
    decreases h, 0nat,
{
    match h {
        Formula::True | Formula::False | Formula::Var { .. } => (e, 0),
        Formula::Box { f, .. } | Formula::Diamond { f, .. } => improved_run(l, *f, scope, e),
        Formula::And { f1, f2 } | Formula::Or { f1, f2 } => {
            let first = improved_run(l, *f1, scope, e);
            let second = improved_run(l, *f2, scope, first.0);
            (second.0, first.1 + second.1)
        },
        Formula::Mu { var, f } => improved_loop(
            l,
            true,
            var,
            *f,
            entered(l, true, h, scope, e),
            l.states.len(),
        ),
        Formula::Nu { var, f } => improved_loop(
            l,
            false,
            var,
            *f,
            entered(l, false, h, scope, e),
            l.states.len(),
        ),
    }
}

/// The environment with which the iteration of the binder `h` begins:
/// `e`, after the reset of the open binders of the kind of `h` in `h` if
/// `h` stands right under a binder of the other kind.
pub open spec fn entered(l: LtsView, least: bool, h: Formula, scope: Scope, e: Valuation) -> Valuation {
    if scope == Scope::Under(!least) {
        sweep(l, Some(least), h.spec_subformulas(), e)
    } else {
        e
    }
}

/// What the improved evaluation makes of the environment `e` while it
/// iterates `body` from the set that `var` stands for until nothing
/// changes, and the number of fixed-point iterations that it makes, those
/// within the body included. `fuel` bounds the number of rounds after the
/// first.
pub open spec fn improved_loop(
    l: LtsView,
    least: bool,
    var: VarName,
    body: Formula,
    e: Valuation,
    fuel: nat,
) -> (Valuation, nat)
    decreases body, 1 + fuel,
{
    let inner = improved_run(l, body, Scope::Under(least), e);
    let next = inner.0.insert(var, sem(l, body, e));
    if sem(l, body, e) == e[var] || fuel == 0 {
        (next, 1 + inner.1)
    } else {
        let rest = improved_loop(l, least, var, body, next, (fuel - 1) as nat);
        (rest.0, 1 + inner.1 + rest.1)
    }
}

/// The number of fixed-point iterations that the improved evaluation of
/// the closed formula `f` makes.
pub open spec fn improved_iterations(l: LtsView, f: Formula) -> nat {
    improved_run(l, f, Scope::Top, sweep(l, None, f.spec_subformulas(), Map::empty())).1
}

/// The states that satisfy the closed formula `f`, no two binders of
/// which bind the same variable.
pub fn eval(lts: &Lts, f: &Formula) -> (r: BTreeSet<State>)
    requires
        lts.wf(),
        f.distinct_binders(),
        f.closed(),
    ensures
        r@ == satisfying(lts@, *f),
{
    eval_counted(lts, f).0
}

/// The states that satisfy the closed formula `f`, no two binders of
/// which bind the same variable, and the number of fixed-point iterations
/// that finding them took, counted in 32 bits.
pub fn eval_counted(lts: &Lts, f: &Formula) -> (r: (BTreeSet<State>, u32))
    requires
        lts.wf(),
        f.distinct_binders(),
        f.closed(),
    ensures
        r.0@ == satisfying(lts@, *f),
        r.1 == wrapped(improved_iterations(lts@, *f) as int),
{
    proof {
        f.lemma_distinct_scoped();
    }
    let mut env = Env::new();
    seed(lts, f, &mut env);
    let mut count: u32 = 0;
    let r = eval_inner(lts, f, None, &mut env, &mut count);
    (r, count)
}

/// The environment `e` is one from which the improved evaluation of `f`
/// outside all binders may begin: it binds the variables of `f` to sets of
/// states and is ready for `f`.
pub open spec fn fit(l: LtsView, f: Formula, e: Valuation) -> bool {
    &&& f.free().subset_of(e.dom())
    &&& f.declared().subset_of(e.dom())
    &&& within(l, e)
    &&& ready(l, f, Scope::Top, e)
}

/// Seeding makes an environment fit for a formula whose binders bind
/// distinct variables, none of which is free in it, and changes nothing
/// of what the formula means.
pub proof fn lemma_seeded_fit(l: LtsView, f: Formula, e: Valuation)
    requires
        f.distinct_binders(),
        f.free().disjoint(f.declared()),
        f.free().subset_of(e.dom()),
        within(l, e),
    ensures
        fit(l, f, sweep(l, None, f.spec_subformulas(), e)),
        kept(e, sweep(l, None, f.spec_subformulas(), e), f.declared()),
        sem(l, f, sweep(l, None, f.spec_subformulas(), e)) == sem(l, f, e),
{
    let out = sweep(l, None, f.spec_subformulas(), e);
    f.lemma_distinct_scoped();
    lemma_sweep_settles(l, None, f, e);
    lemma_sweep_within(l, None, f.spec_subformulas(), e);
    lemma_seeded_bound(l, f, e, out);
    assert forall|x: VarName| f.free().contains(x) implies out.dom().contains(x) && #[trigger] out[x]
        == e[x] by {
        assert(e.dom().contains(x));
        assert(e.contains_key(x));
        assert(!f.declared().contains(x));
    }
    assert(bounded_on(l, out, f.free().union(f.declared()))) by {
        assert forall|x: VarName| f.free().union(f.declared()).contains(x) implies (
        #[trigger] out[x]).subset_of(l.states) by {
            assert(out.dom().contains(x));
        }
    }
    lemma_ready_settled(l, None, f, Scope::Top, e, out);
    lemma_sem_frame(l, f, out, e);
    assert(kept(e, out, f.declared()));
}

/// Binds the variable of every least fixed-point binder in `f` to no
/// state and that of every greatest fixed-point binder to every state.
/// The environment is then fit for `f`, if the binders of `f` bind
/// distinct variables, none of which is free in `f`.
pub fn seed(lts: &Lts, f: &Formula, env: &mut Env)
    ensures
        final(env)@ == sweep(lts@, None, f.spec_subformulas(), old(env)@),
        f.distinct_binders() && f.free().disjoint(f.declared()) && f.free().subset_of(
            old(env)@.dom(),
        ) && within(lts@, old(env)@) ==> fit(lts@, *f, final(env)@) && kept(
            old(env)@,
            final(env)@,
            f.declared(),
        ) && sem(lts@, *f, final(env)@) == sem(lts@, *f, old(env)@),
{
    let ghost l = lts@;
    let ghost e0 = env@;
    let ghost goal = sweep(l, None, f.spec_subformulas(), env@);
    let mut walk = f.subformulas();
    loop
        invariant
            l == lts@,
            e0 == old(env)@,
            sweep(l, None, walk.remaining(), env@) == goal,
            goal == sweep(l, None, f.spec_subformulas(), old(env)@),
        decreases walk.remaining().len(),
    {
        match walk.next() {
            Some(g) => {
                match g {
                    Formula::Mu { var, .. } => {
                        let _ = env.insert(*var, BTreeSet::new());
                    },
                    Formula::Nu { var, .. } => {
                        let _ = env.insert(*var, lts.states().clone());
                    },
                    _ => {},
                }
            },
            None => {
                proof {
                    if f.distinct_binders() && f.free().disjoint(f.declared())
                        && f.free().subset_of(e0.dom()) && within(l, e0) {
                        lemma_seeded_fit(l, *f, e0);
                    }
                }
                return ;
            },
        }
    }
}

/// Binds the variable of every open binder of the kind of `f` among the
/// subformulas of the binder `f`, itself included, to the set from which
/// its iteration starts.
pub fn reset_fixpoints(lts: &Lts, f: &Formula, env: &mut Env)
    requires
        *f is Mu || *f is Nu,
    ensures
        final(env)@ == sweep(lts@, Some(*f is Mu), f.spec_subformulas(), old(env)@),
{
    let ghost l = lts@;
    let least = f.is_mu();
    let ghost goal = sweep(l, Some(least), f.spec_subformulas(), env@);
    let mut walk = f.subformulas();
    loop
        invariant
            l == lts@,
            least == (*f is Mu),
            sweep(l, Some(least), walk.remaining(), env@) == goal,
            goal == sweep(l, Some(least), f.spec_subformulas(), old(env)@),
        decreases walk.remaining().len(),
    {
        match walk.next() {
            Some(g) => {
                match g {
                    Formula::Mu { var, .. } => {
                        if least && g.is_open() {
                            let _ = env.insert(*var, BTreeSet::new());
                        }
                    },
                    Formula::Nu { var, .. } => {
                        if !least && g.is_open() {
                            let _ = env.insert(*var, lts.states().clone());
                        }
                    },
                    _ => {},
                }
            },
            None => {
                return ;
            },
        }
    }
}

/// What was bound stays bound.
pub proof fn lemma_kept_bound(e0: Valuation, e1: Valuation, changed: Set<VarName>, vars: Set<VarName>)
    requires
        kept(e0, e1, changed),
        vars.subset_of(e0.dom()),
    ensures
        vars.subset_of(e1.dom()),
{
    assert forall|x: VarName| vars.contains(x) implies e1.dom().contains(x) by {
        assert(e0.dom().contains(x));
        assert(e0.contains_key(x));
    }
}

/// What is kept of the first of two parts by the evaluation of the
/// second, and of the second by that of the first.
pub proof fn lemma_parts(
    l: LtsView,
    f1: Formula,
    f2: Formula,
    scope: Scope,
    e0: Valuation,
    e1: Valuation,
)
    requires
        kept(e0, e1, f1.declared()),
        f1.declared().disjoint(f2.free()),
        f1.declared().disjoint(f2.declared()),
        f2.free().subset_of(e0.dom()),
        f2.declared().subset_of(e0.dom()),
        ready(l, f2, scope, e0),
    ensures
        f2.free().subset_of(e1.dom()),
        f2.declared().subset_of(e1.dom()),
        sem(l, f2, e1) == sem(l, f2, e0),
        ready(l, f2, scope, e1),
{
    assert forall|x: VarName| f2.free().contains(x) implies e1.dom().contains(x) && #[trigger] e1[x]
        == e0[x] by {
        assert(e0.contains_key(x));
    }
    assert forall|x: VarName| f2.declared().contains(x) implies e1.dom().contains(x) by {
        assert(e0.contains_key(x));
    }
    lemma_sem_frame(l, f2, e1, e0);
    assert(alike(e0, e1, f2.free().union(f2.declared()))) by {
        assert forall|x: VarName| #[trigger]
            f2.free().union(f2.declared()).contains(x) implies e0[x] == e1[x] && (e0.contains_key(x)
            == e1.contains_key(x)) by {
            assert(e0.contains_key(x));
        }
    }
    lemma_ready_frame(l, f2, scope, e0, e1);
}

/// The states that satisfy `f` under `env`, where `prev_fixpoint` is the
/// innermost binder around `f`, if there is one.
#[verifier::rlimit(30)]
pub fn eval_inner(
    lts: &Lts,
    f: &Formula,
    prev_fixpoint: Option<&Formula>,
    env: &mut Env,
    count: &mut u32,
) -> (r: BTreeSet<State>)
    requires
        lts.wf(),
        f.scoped(),
        f.distinct_binders(),
        f.free().subset_of(old(env)@.dom()),
        f.declared().subset_of(old(env)@.dom()),
        within(lts@, old(env)@),
        ready(lts@, *f, scope_of(prev_fixpoint), old(env)@),
    ensures
        r@ == sem(lts@, *f, old(env)@),
        kept(old(env)@, final(env)@, f.declared()),
        within(lts@, final(env)@),
        ready(lts@, *f, scope_of(prev_fixpoint), final(env)@),
        f matches Formula::Mu { var, .. } ==> final(env)@[*var] == r@,
        f matches Formula::Nu { var, .. } ==> final(env)@[*var] == r@,
        final(env)@.dom() =~= old(env)@.dom(),
        final(env)@ == improved_run(lts@, *f, scope_of(prev_fixpoint), old(env)@).0,
        *final(count) == wrapped(
            *old(count) + improved_run(lts@, *f, scope_of(prev_fixpoint), old(env)@).1,
        ),
    decreases *f, 0nat,
{
    let ghost e0 = env@;
    let ghost l = lts@;
    let ghost scope = scope_of(prev_fixpoint);
    let ghost c0 = *count;
    proof {
        lemma_wrapped_same(c0);
    }
    match f {
        Formula::Var { name } => {
            proof {
                assert(f.free().contains(*name));
            }
            env.get(*name).clone()
        },
        Formula::True => lts.states().clone(),
        Formula::False => BTreeSet::new(),
        Formula::And { f1, f2 } => {
            let r1 = eval_inner(lts, f1, prev_fixpoint, env, count);
            let ghost e1 = env@;
            proof {
                f.lemma_scoped();
                lemma_parts(l, **f1, **f2, scope, e0, e1);
                lemma_wrapped_add(
                    *count,
                    c0 + improved_run(l, **f1, scope, e0).1,
                    improved_run(l, **f2, scope, e1).1 as int,
                );
            }
            let r2 = eval_inner(lts, f2, prev_fixpoint, env, count);
            proof {
                lemma_kept_bound(e0, e1, f1.declared(), f1.free());
                lemma_kept_bound(e0, e1, f1.declared(), f1.declared());
                lemma_parts(l, **f2, **f1, scope, e1, env@);
            }
            intersection(&r1, &r2)
        },
        Formula::Or { f1, f2 } => {
            let r1 = eval_inner(lts, f1, prev_fixpoint, env, count);
            let ghost e1 = env@;
            proof {
                f.lemma_scoped();
                lemma_parts(l, **f1, **f2, scope, e0, e1);
                lemma_wrapped_add(
                    *count,
                    c0 + improved_run(l, **f1, scope, e0).1,
                    improved_run(l, **f2, scope, e1).1 as int,
                );
            }
            let r2 = eval_inner(lts, f2, prev_fixpoint, env, count);
            proof {
                lemma_kept_bound(e0, e1, f1.declared(), f1.free());
                lemma_kept_bound(e0, e1, f1.declared(), f1.declared());
                lemma_parts(l, **f2, **f1, scope, e1, env@);
            }
            union(&r1, &r2)
        },
        Formula::Diamond { step, f: g } => {
            let sat = eval_inner(lts, g, prev_fixpoint, env, count);
            some_successor(lts, step.as_str(), &sat)
        },
        Formula::Box { step, f: g } => {
            let sat = eval_inner(lts, g, prev_fixpoint, env, count);
            all_successors(lts, step.as_str(), &sat)
        },
        Formula::Mu { var, f: g } => iterate(lts, f, true, *var, g, prev_fixpoint, env, count),
        Formula::Nu { var, f: g } => iterate(lts, f, false, *var, g, prev_fixpoint, env, count),
    }
}

/// What is known when the iteration of the binder `f` begins, after the
/// reset if the evaluation came to the binder from one of the other kind.
#[verifier::rlimit(30)]
pub proof fn lemma_enter(
    l: LtsView,
    least: bool,
    var: VarName,
    body: Formula,
    f: Formula,
    scope: Scope,
    alternates: bool,
    at_entry: Valuation,
    e0: Valuation,
)
    requires
        l.wf(),
        f == fix(least, var, body),
        f.scoped(),
        f.distinct_binders(),
        f.free().subset_of(at_entry.dom()),
        f.declared().subset_of(at_entry.dom()),
        within(l, at_entry),
        ready(l, f, scope, at_entry),
        !(scope is Cut),
        alternates <==> scope == Scope::Under(!least),
        e0 == if alternates {
            sweep(l, Some(least), f.spec_subformulas(), at_entry)
        } else {
            at_entry
        },
    ensures
        kept(at_entry, e0, f.declared()),
        e0.dom() =~= at_entry.dom(),
        within(l, e0),
        e0.contains_key(var),
        body.free().remove(var).subset_of(e0.dom()),
        body.declared().subset_of(e0.dom()),
        bounded_on(l, e0, body.free().remove(var)),
        sem(l, f, e0) == sem(l, f, at_entry),
        good(l, least, var, body, e0, e0[var]),
        ready(l, body, Scope::Under(least), e0),
{
    f.lemma_scoped();
    assert(f.declared().contains(var));
    assert(at_entry.dom().contains(var));
    if alternates {
        lemma_sweep_settles(l, Some(least), f, at_entry);
        lemma_sweep_within(l, Some(least), f.spec_subformulas(), at_entry);
        lemma_ready_weaken(l, f, scope, at_entry);
        assert forall|x: VarName| f.free().union(f.declared()).contains(x) implies e0.contains_key(
            x,
        ) && (#[trigger] e0[x]).subset_of(l.states) by {
            assert(at_entry.dom().contains(x));
            assert(at_entry.contains_key(x));
        }
        lemma_ready_settled(l, Some(least), f, Scope::Under(least), at_entry, e0);
        assert(agree_on(e0, at_entry, f.free())) by {
            assert forall|x: VarName| f.free().contains(x) implies #[trigger] e0[x] == at_entry[x] by {
                assert(!f.declared().contains(x));
            }
        }
        lemma_sem_frame(l, f, e0, at_entry);
        assert(kept(at_entry, e0, f.declared()));
        assert forall|x: VarName| e0.dom().contains(x) <==> at_entry.dom().contains(x) by {
            if f.declared().contains(x) {
                assert(at_entry.dom().contains(x));
                assert(at_entry.contains_key(x));
            } else {
                assert(!f.declared().contains(x));
            }
        }
    }
    assert forall|x: VarName| body.free().remove(var).contains(x) implies e0.dom().contains(x) && (
    #[trigger] e0[x]).subset_of(l.states) by {
        assert(f.free().contains(x));
        assert(at_entry.dom().contains(x));
        assert(at_entry.contains_key(x));
    }
    assert forall|x: VarName| body.declared().contains(x) implies e0.dom().contains(x) by {
        assert(f.declared().contains(x));
        assert(at_entry.dom().contains(x));
        assert(at_entry.contains_key(x));
    }
}

/// What one round of the iteration of `body` from `cur` under `now` does,
/// in terms of the environment `e0` at the start of the iteration.
proof fn lemma_turn(
    l: LtsView,
    least: bool,
    var: VarName,
    body: Formula,
    e0: Valuation,
    now: Valuation,
    cur: Set<State>,
)
    requires
        l.states.finite(),
        body.scoped(),
        !body.declared().contains(var),
        body.free().remove(var).subset_of(e0.dom()),
        body.declared().subset_of(e0.dom()),
        bounded_on(l, e0, body.free().remove(var)),
        tracks(e0, now, var, body),
        now.contains_key(var),
        now[var] == cur,
        good(l, least, var, body, e0, cur),
    ensures
        body.free().subset_of(now.dom()),
        body.declared().subset_of(now.dom()),
        sem(l, body, now) == image(l, var, body, e0, cur),
        good(l, least, var, body, e0, image(l, var, body, e0, cur)),
        cur.subset_of(l.states),
        image(l, var, body, e0, cur).subset_of(l.states),
        least ==> cur.subset_of(image(l, var, body, e0, cur)),
        !least ==> image(l, var, body, e0, cur).subset_of(cur),
        image(l, var, body, e0, cur) == cur ==> cur == sem(l, fix(least, var, body), e0),
        image(l, var, body, e0, cur) != cur ==> distance(l, least, image(l, var, body, e0, cur))
            < distance(l, least, cur),
{
    body.lemma_scoped();
    assert forall|x: VarName| body.free().contains(x) implies now.dom().contains(x) && #[trigger] now[x]
        == e0.insert(var, cur)[x] by {
        if x != var {
            assert(body.free().remove(var).contains(x));
            assert(e0.dom().contains(x));
            assert(e0.contains_key(x) && x != var);
        }
    }
    assert forall|x: VarName| body.free().contains(x) implies now.dom().contains(x) by {
        assert(now[x] == e0.insert(var, cur)[x]);
    }
    assert forall|x: VarName| body.declared().contains(x) implies now.dom().contains(x) by {
        assert(e0.dom().contains(x));
        assert(e0.contains_key(x) && x != var);
    }
    lemma_sem_frame(l, body, now, e0.insert(var, cur));
    lemma_good_step(l, least, var, body, e0, cur);
}

/// A set of states is no further from a fixed point than there are
/// states.
pub proof fn lemma_distance_bound(l: LtsView, least: bool, cur: Set<State>)
    requires
        l.states.finite(),
        cur.subset_of(l.states),
    ensures
        distance(l, least, cur) <= l.states.len(),
{
    vstd::set_lib::lemma_len_subset(cur, l.states);
}

/// What is known when the iteration of the binder `f` ends.
proof fn lemma_leave(
    l: LtsView,
    least: bool,
    var: VarName,
    body: Formula,
    f: Formula,
    scope: Scope,
    at_entry: Valuation,
    e0: Valuation,
    last: Valuation,
    cur: Set<State>,
)
    requires
        f == fix(least, var, body),
        f.scoped(),
        kept(at_entry, e0, f.declared()),
        kept(e0, last, f.declared()),
        tracks(e0, last, var, body),
        body.free().remove(var).subset_of(e0.dom()),
        last[var] == cur,
        good(l, least, var, body, e0, cur),
        ready(l, body, Scope::Under(least), last),
    ensures
        kept(at_entry, last, f.declared()),
        ready(l, f, scope, last),
{
    body.lemma_scoped();
    assert(agree_on(e0, last, body.free().remove(var))) by {
        assert forall|x: VarName| body.free().remove(var).contains(x) implies #[trigger] e0[x]
            == last[x] by {
            assert(e0.dom().contains(x));
            assert(e0.contains_key(x) && x != var);
        }
    }
    lemma_good_frame(l, least, var, body, e0, last, cur);
    if !exposed(scope, least) {
        lemma_ready_weaken(l, body, Scope::Under(least), last);
    }
    assert forall|x: VarName| #[trigger] at_entry.contains_key(x) implies last.contains_key(x) && (
    !f.declared().contains(x) ==> last[x] == at_entry[x]) by {
        assert(e0.contains_key(x));
    }
}

/// The fixed point of the binder `f`, of `var` over `body`, by iteration
/// from the set that `var` stands for, after a reset if the evaluation
/// came to the binder from one of the other kind.
#[verifier::rlimit(30)]
pub fn iterate(
    lts: &Lts,
    f: &Formula,
    least: bool,
    var: VarName,
    body: &Formula,
    prev_fixpoint: Option<&Formula>,
    env: &mut Env,
    count: &mut u32,
) -> (r: BTreeSet<State>)
    requires
        *f == fix(least, var, *body),
        lts.wf(),
        f.scoped(),
        f.distinct_binders(),
        f.free().subset_of(old(env)@.dom()),
        f.declared().subset_of(old(env)@.dom()),
        within(lts@, old(env)@),
        ready(lts@, *f, scope_of(prev_fixpoint), old(env)@),
    ensures
        r@ == sem(lts@, *f, old(env)@),
        kept(old(env)@, final(env)@, f.declared()),
        within(lts@, final(env)@),
        ready(lts@, *f, scope_of(prev_fixpoint), final(env)@),
        f matches Formula::Mu { var, .. } ==> final(env)@[*var] == r@,
        f matches Formula::Nu { var, .. } ==> final(env)@[*var] == r@,
        final(env)@.dom() =~= old(env)@.dom(),
        final(env)@ == improved_run(lts@, *f, scope_of(prev_fixpoint), old(env)@).0,
        *final(count) == wrapped(
            *old(count) + improved_run(lts@, *f, scope_of(prev_fixpoint), old(env)@).1,
        ),
    decreases *body, 1nat,
{
    let ghost at_entry = env@;
    let ghost l = lts@;
    let ghost scope = scope_of(prev_fixpoint);
    let alternates = match prev_fixpoint {
        Some(Formula::Nu { .. }) => least,
        Some(Formula::Mu { .. }) => !least,
        _ => false,
    };
    if alternates {
        reset_fixpoints(lts, f, env);
    }
    let ghost e0 = env@;
    proof {
        lts.lemma_view_wf();
        lemma_enter(l, least, var, *body, *f, scope, alternates, at_entry, e0);
    }
    let ghost mut cur: Set<State> = e0[var];
    let ghost c0 = *count;
    let ghost goal = improved_loop(l, least, var, *body, e0, l.states.len());
    let ghost mut fuel: nat = l.states.len();
    let ghost mut done: nat = 0;
    proof {
        assert(e0 == entered(l, least, *f, scope, at_entry));
        assert(goal == improved_run(l, *f, scope, at_entry));
        lemma_distance_bound(l, least, cur);
        lemma_wrapped_same(c0);
    }
    loop
        invariant
            lts.wf(),
            l == lts@,
            l.states.finite(),
            c0 == *old(count),
            goal == improved_run(l, *f, scope, at_entry),
            cur.subset_of(l.states),
            fuel >= distance(l, least, cur),
            *count == wrapped(c0 + done),
            improved_loop(l, least, var, *body, env@, fuel).0 == goal.0,
            done + improved_loop(l, least, var, *body, env@, fuel).1 == goal.1,
            at_entry == old(env)@,
            scope == scope_of(prev_fixpoint),
            *f == fix(least, var, *body),
            f.scoped(),
            f.distinct_binders(),
            kept(at_entry, e0, f.declared()),
            sem(l, *f, e0) == sem(l, *f, at_entry),
            body.free().remove(var).subset_of(e0.dom()),
            body.declared().subset_of(e0.dom()),
            bounded_on(l, e0, body.free().remove(var)),
            e0.contains_key(var),
            env@.contains_key(var),
            env@[var] == cur,
            tracks(e0, env@, var, *body),
            e0.dom() =~= at_entry.dom(),
            env@.dom() =~= e0.dom(),
            kept(e0, env@, f.declared()),
            within(l, env@),
            good(l, least, var, *body, e0, cur),
            ready(l, *body, Scope::Under(least), env@),
        decreases distance(l, least, cur),
    {
        proof {
            lemma_wrapped_add(*count, c0 + done, 1);
        }
        *count = count.wrapping_add(1);
        let ghost ek = env@;
        proof {
            lemma_turn(l, least, var, *body, e0, ek, cur);
            lemma_wrapped_add(
                *count,
                c0 + done + 1,
                improved_run(l, *body, Scope::Under(least), ek).1 as int,
            );
        }
        let new = eval_inner(lts, body, Some(f), env, count);
        let ghost em = env@;
        let prev = env.insert(var, new.clone()).unwrap();
        proof {
            lemma_tracks(e0, ek, em, env@, var, *body, cur, new@);
            lemma_within_insert(l, em, var, new@);
            lemma_ready_grow(l, *body, Scope::Under(least), least, em, var, new@);
        }
        if equal(&prev, &new) {
            proof {
                lemma_leave(l, least, var, *body, *f, scope, at_entry, e0, env@, new@);
            }
            return new;
        }
        proof {
            done = done + 1 + improved_run(l, *body, Scope::Under(least), ek).1;
            fuel = (fuel - 1) as nat;
            cur = new@;
        }
    }
}

} // verus!
