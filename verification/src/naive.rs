//! The naive evaluator: every fixed point is computed from scratch each
//! time the evaluation comes to its binder.

use crate::env::Env;
use crate::env::kept;
use crate::env::lemma_tracks;
use crate::env::lemma_within_insert;
use crate::env::tracks;
use crate::env::within;
use crate::fixpoint::distance;
use crate::fixpoint::fix;
use crate::fixpoint::good;
use crate::fixpoint::image;
use crate::fixpoint::lemma_good_start;
use crate::fixpoint::lemma_good_step;
use crate::fixpoint::lemma_wrapped_add;
use crate::fixpoint::lemma_wrapped_same;
use crate::fixpoint::start;
use crate::fixpoint::wrapped;
use crate::lts::Lts;
use crate::lts::LtsView;
use crate::lts::State;
use crate::modal::all_successors;
use crate::modal::some_successor;
use crate::mu_calculus::Formula;
use crate::mu_calculus::VarName;
use crate::semantics::Valuation;
use crate::semantics::agree_on;
use crate::semantics::bounded_on;
use crate::semantics::lemma_agree_insert;
use crate::semantics::lemma_sem_frame;
use crate::semantics::satisfying;
use crate::semantics::sem;
use crate::sets::equal;
use crate::sets::intersection;
use crate::sets::union;
use std::collections::BTreeSet;
use vstd::prelude::*;

verus! {

/// The number of fixed-point iterations that the naive evaluation of `f`
/// under `e` makes.
pub open spec fn naive_iterations(l: LtsView, f: Formula, e: Valuation) -> nat
    decreases f, 0nat,
{
    match f {
        Formula::False | Formula::True | Formula::Var { .. } => 0,
        Formula::And { f1, f2 } | Formula::Or { f1, f2 } => naive_iterations(l, *f1, e)
            + naive_iterations(l, *f2, e),
        Formula::Diamond { f, .. } | Formula::Box { f, .. } => naive_iterations(l, *f, e),
        Formula::Mu { var, f } => naive_loop(l, *f, var, e, start(l, true), l.states.len()),
        Formula::Nu { var, f } => naive_loop(l, *f, var, e, start(l, false), l.states.len()),
    }
}

/// The number of fixed-point iterations that the naive evaluation makes
/// while it iterates `body` from `cur` until nothing changes, those made
/// within the body included. `fuel` bounds the number of rounds after the
/// first.
pub open spec fn naive_loop(
    l: LtsView,
    body: Formula,
    var: VarName,
    e: Valuation,
    cur: Set<State>,
    fuel: nat,
) -> nat
    decreases body, 1 + fuel,
{
    let round = 1 + naive_iterations(l, body, e.insert(var, cur));
    if image(l, var, body, e, cur) == cur || fuel == 0 {
        round
    } else {
        round + naive_loop(l, body, var, e, image(l, var, body, e, cur), (fuel - 1) as nat)
    }
}

/// The number of iterations depends on the free variables only.
pub proof fn lemma_iterations_frame(l: LtsView, f: Formula, e1: Valuation, e2: Valuation)
    requires
        agree_on(e1, e2, f.free()),
    ensures
        naive_iterations(l, f, e1) == naive_iterations(l, f, e2),
    decreases f, 0nat,
{
    match f {
        Formula::False | Formula::True | Formula::Var { .. } => {},
        Formula::And { f1, f2 } | Formula::Or { f1, f2 } => {
            lemma_iterations_frame(l, *f1, e1, e2);
            lemma_iterations_frame(l, *f2, e1, e2);
        },
        Formula::Diamond { f: g, .. } | Formula::Box { f: g, .. } => {
            lemma_iterations_frame(l, *g, e1, e2);
        },
        Formula::Mu { var, f: g } => {
            lemma_loop_frame(l, *g, var, e1, e2, start(l, true), l.states.len());
        },
        Formula::Nu { var, f: g } => {
            lemma_loop_frame(l, *g, var, e1, e2, start(l, false), l.states.len());
        },
    }
}

/// The number of iterations of a loop depends on the free variables only.
pub proof fn lemma_loop_frame(
    l: LtsView,
    body: Formula,
    var: VarName,
    e1: Valuation,
    e2: Valuation,
    cur: Set<State>,
    fuel: nat,
)
    requires
        agree_on(e1, e2, body.free().remove(var)),
    ensures
        naive_loop(l, body, var, e1, cur, fuel) == naive_loop(l, body, var, e2, cur, fuel),
    decreases body, 1 + fuel,
{
    lemma_agree_insert(e1, e2, body, var, cur);
    lemma_iterations_frame(l, body, e1.insert(var, cur), e2.insert(var, cur));
    lemma_sem_frame(l, body, e1.insert(var, cur), e2.insert(var, cur));
    if !(image(l, var, body, e1, cur) == cur || fuel == 0) {
        lemma_loop_frame(l, body, var, e1, e2, image(l, var, body, e1, cur), (fuel - 1) as nat);
    }
}

/// The states that satisfy the closed formula `f`, in which no binder
/// stands in the scope of a binder of the same variable.
pub fn eval(lts: &Lts, f: &Formula) -> (r: BTreeSet<State>)
    requires
        lts.wf(),
        f.scoped(),
        f.closed(),
    ensures
        r@ == satisfying(lts@, *f),
{
    eval_counted(lts, f).0
}

/// The states that satisfy the closed formula `f`, in which no binder
/// stands in the scope of a binder of the same variable, and the number
/// of fixed-point iterations that finding them took, counted in 32 bits.
pub fn eval_counted(lts: &Lts, f: &Formula) -> (r: (BTreeSet<State>, u32))
    requires
        lts.wf(),
        f.scoped(),
        f.closed(),
    ensures
        r.0@ == satisfying(lts@, *f),
        r.1 == wrapped(naive_iterations(lts@, *f, Map::empty()) as int),
{
    let mut env = Env::new();
    let mut count: u32 = 0;
    let r = eval_inner(lts, f, &mut env, &mut count);
    (r, count)
}

/// The states that satisfy `f` under `env`. The variables that `f` binds,
/// and no others, are bound anew: that of a binder `f` is left bound to
/// the fixed point. `count` goes up by the number of iterations made.
#[verifier::rlimit(30)]
pub fn eval_inner(lts: &Lts, f: &Formula, env: &mut Env, count: &mut u32) -> (r: BTreeSet<State>)
    requires
        lts.wf(),
        f.scoped(),
        f.free().subset_of(old(env)@.dom()),
        within(lts@, old(env)@),
    ensures
        r@ == sem(lts@, *f, old(env)@),
        f matches Formula::Mu { var, .. } ==> final(env)@[*var] == r@,
        f matches Formula::Nu { var, .. } ==> final(env)@[*var] == r@,
        final(env)@.dom() =~= old(env)@.dom().union(f.declared()),
        kept(old(env)@, final(env)@, f.declared()),
        within(lts@, final(env)@),
        *final(count) == wrapped(*old(count) + naive_iterations(lts@, *f, old(env)@)),
    decreases *f, 0nat,
{
    let ghost e0 = env@;
    let ghost l = lts@;
    let ghost c0 = *count;
    proof {
        lts.lemma_view_wf();
        lemma_wrapped_same(c0);
    }
    match f {
        Formula::Var { name } => {
            proof {
                assert(f.free().contains(*name));
            }
            env.get(*name).clone()
        },
        Formula::True => lts.states().clone(),
        Formula::False => BTreeSet::new(),
        Formula::And { f1, f2 } => {
            let r1 = eval_inner(lts, f1, env, count);
            proof {
                lemma_second(l, **f1, **f2, e0, env@);
                lemma_wrapped_add(
                    *count,
                    c0 + naive_iterations(l, **f1, e0),
                    naive_iterations(l, **f2, e0) as int,
                );
            }
            let r2 = eval_inner(lts, f2, env, count);
            intersection(&r1, &r2)
        },
        Formula::Or { f1, f2 } => {
            let r1 = eval_inner(lts, f1, env, count);
            proof {
                lemma_second(l, **f1, **f2, e0, env@);
                lemma_wrapped_add(
                    *count,
                    c0 + naive_iterations(l, **f1, e0),
                    naive_iterations(l, **f2, e0) as int,
                );
            }
            let r2 = eval_inner(lts, f2, env, count);
            union(&r1, &r2)
        },
        Formula::Diamond { step, f: g } => {
            let sat = eval_inner(lts, g, env, count);
            some_successor(lts, step.as_str(), &sat)
        },
        Formula::Box { step, f: g } => {
            let sat = eval_inner(lts, g, env, count);
            all_successors(lts, step.as_str(), &sat)
        },
        Formula::Mu { var, f: g } => fixed_point(lts, true, *var, g, env, count),
        Formula::Nu { var, f: g } => fixed_point(lts, false, *var, g, env, count),
    }
}

/// After the first of two parts is evaluated, the second still means and
/// costs what it did before.
proof fn lemma_second(l: LtsView, f1: Formula, f2: Formula, e0: Valuation, e1: Valuation)
    requires
        kept(e0, e1, f1.declared()),
        f1.declared().disjoint(f2.free()),
        f2.free().subset_of(e0.dom()),
    ensures
        f2.free().subset_of(e1.dom()),
        sem(l, f2, e1) == sem(l, f2, e0),
        naive_iterations(l, f2, e1) == naive_iterations(l, f2, e0),
{
    assert forall|x: VarName| f2.free().contains(x) implies e1.dom().contains(x) && #[trigger] e1[x]
        == e0[x] by {
        assert(e0.contains_key(x));
    }
    lemma_sem_frame(l, f2, e1, e0);
    lemma_iterations_frame(l, f2, e1, e0);
}

/// What one round of the iteration of `body` from `cur` under `now` does,
/// in terms of the environment at the start of the iteration.
proof fn lemma_round(
    l: LtsView,
    least: bool,
    var: VarName,
    body: Formula,
    at_start: Valuation,
    now: Valuation,
    cur: Set<State>,
    fuel: nat,
)
    requires
        l.states.finite(),
        body.scoped(),
        body.free().remove(var).subset_of(at_start.dom()),
        bounded_on(l, at_start, body.free().remove(var)),
        tracks(at_start, now, var, body),
        now.contains_key(var),
        now[var] == cur,
        good(l, least, var, body, at_start, cur),
        fuel >= distance(l, least, cur),
    ensures
        body.free().subset_of(now.dom()),
        sem(l, body, now) == image(l, var, body, at_start, cur),
        naive_iterations(l, body, now) == naive_iterations(l, body, at_start.insert(var, cur)),
        good(l, least, var, body, at_start, image(l, var, body, at_start, cur)),
        image(l, var, body, at_start, cur).subset_of(l.states),
        image(l, var, body, at_start, cur) == cur ==> {
            &&& cur == sem(l, fix(least, var, body), at_start)
            &&& naive_loop(l, body, var, at_start, cur, fuel) == 1 + naive_iterations(
                l,
                body,
                now,
            )
        },
        image(l, var, body, at_start, cur) != cur ==> {
            &&& distance(l, least, image(l, var, body, at_start, cur)) < distance(l, least, cur)
            &&& fuel > 0
            &&& naive_loop(l, body, var, at_start, cur, fuel) == 1 + naive_iterations(l, body, now)
                + naive_loop(
                l,
                body,
                var,
                at_start,
                image(l, var, body, at_start, cur),
                (fuel - 1) as nat,
            )
        },
{
    body.lemma_scoped();
    assert forall|x: VarName| body.free().contains(x) implies now.dom().contains(x) && #[trigger] now[x]
        == at_start.insert(var, cur)[x] by {
        if x != var {
            assert(body.free().remove(var).contains(x));
            assert(at_start.contains_key(x) && x != var);
        }
    }
    assert forall|x: VarName| body.free().contains(x) implies now.dom().contains(x) by {
        if x != var {
            assert(body.free().remove(var).contains(x));
            assert(at_start.contains_key(x) && x != var);
        }
    }
    lemma_sem_frame(l, body, now, at_start.insert(var, cur));
    lemma_iterations_frame(l, body, now, at_start.insert(var, cur));
    lemma_good_step(l, least, var, body, at_start, cur);
}

/// The variables that are bound after one round of the iteration of a
/// fixed point: those bound at the start, that of the binder and those
/// that the body binds.
proof fn lemma_round_binds(
    at_start: Set<VarName>,
    before: Set<VarName>,
    middle: Set<VarName>,
    after: Set<VarName>,
    declared: Set<VarName>,
    var: VarName,
)
    requires
        at_start.insert(var).subset_of(before),
        before.subset_of(at_start.union(declared.insert(var))),
        middle =~= before.union(declared),
        after =~= middle.insert(var),
    ensures
        after =~= at_start.union(declared.insert(var)),
        at_start.insert(var).subset_of(after),
{
}

/// The least (`least`) or greatest fixed point of `body` in `var`, by
/// iteration from no state or from every state. The variable is left
/// bound to the fixed point.
#[verifier::rlimit(30)]
pub fn fixed_point(
    lts: &Lts,
    least: bool,
    var: VarName,
    body: &Formula,
    env: &mut Env,
    count: &mut u32,
) -> (r: BTreeSet<State>)
    requires
        lts.wf(),
        body.scoped(),
        !body.declared().contains(var),
        body.free().remove(var).subset_of(old(env)@.dom()),
        within(lts@, old(env)@),
    ensures
        r@ == sem(lts@, fix(least, var, *body), old(env)@),
        final(env)@[var] == r@,
        final(env)@.dom() =~= old(env)@.dom().union(body.declared().insert(var)),
        kept(old(env)@, final(env)@, body.declared().insert(var)),
        within(lts@, final(env)@),
        *final(count) == wrapped(
            *old(count) + naive_loop(
                lts@,
                *body,
                var,
                old(env)@,
                start(lts@, least),
                lts@.states.len(),
            ),
        ),
    decreases *body, 1nat,
{
    let ghost e0 = env@;
    let ghost l = lts@;
    let ghost c0 = *count;
    let ghost total = naive_loop(l, *body, var, e0, start(l, least), l.states.len());
    proof {
        lts.lemma_view_wf();
        assert(bounded_on(l, e0, body.free().remove(var))) by {
            assert forall|x: VarName| body.free().remove(var).contains(x) implies (#[trigger] e0[x]).subset_of(
                l.states,
            ) by {
                assert(e0.contains_key(x));
            }
        }
        lemma_good_start(l, least, var, *body, e0);
        lemma_wrapped_same(c0);
    }
    let init: BTreeSet<State> = if least {
        BTreeSet::new()
    } else {
        lts.states().clone()
    };
    let _ = env.insert(var, init);
    let ghost mut cur: Set<State> = start(l, least);
    let ghost mut fuel: nat = l.states.len();
    let ghost mut done: nat = 0;
    loop
        invariant
            lts.wf(),
            l == lts@,
            l.states.finite(),
            e0 == old(env)@,
            c0 == *old(count),
            total == naive_loop(l, *body, var, e0, start(l, least), l.states.len()),
            body.scoped(),
            !body.declared().contains(var),
            env@.contains_key(var),
            env@[var] == cur,
            tracks(e0, env@, var, *body),
            e0.dom().insert(var).subset_of(env@.dom()),
            env@.dom().subset_of(e0.dom().union(body.declared().insert(var))),
            within(l, env@),
            bounded_on(l, e0, body.free().remove(var)),
            body.free().remove(var).subset_of(e0.dom()),
            good(l, least, var, *body, e0, cur),
            fuel >= distance(l, least, cur),
            *count == wrapped(c0 + done),
            done + naive_loop(l, *body, var, e0, cur, fuel) == total,
        decreases distance(l, least, cur),
    {
        proof {
            lemma_wrapped_add(*count, c0 + done, 1);
        }
        *count = count.wrapping_add(1);
        let ghost ek = env@;
        proof {
            lemma_round(l, least, var, *body, e0, ek, cur, fuel);
            lemma_wrapped_add(*count, c0 + done + 1, naive_iterations(l, *body, ek) as int);
        }
        let new = eval_inner(lts, body, env, count);
        let ghost em = env@;
        let prev = env.insert(var, new.clone()).unwrap();
        proof {
            lemma_tracks(e0, ek, em, env@, var, *body, cur, new@);
            lemma_within_insert(l, em, var, new@);
            assert(*count == wrapped(c0 + done + 1 + naive_iterations(l, *body, ek)));
            lemma_round_binds(e0.dom(), ek.dom(), em.dom(), env@.dom(), body.declared(), var);
        }
        if equal(&prev, &new) {
            return new;
        }
        proof {
            done = done + 1 + naive_iterations(l, *body, ek);
            fuel = (fuel - 1) as nat;
            cur = new@;
        }
    }
}

} // verus!
