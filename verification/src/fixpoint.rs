//! Approaching a fixed point by iteration.

use crate::lts::LtsView;
use crate::lts::State;
use crate::mu_calculus::Formula;
use crate::mu_calculus::VarName;
use crate::semantics::Valuation;
use crate::semantics::agree_on;
use crate::semantics::bounded_on;
use crate::semantics::le_on;
use crate::semantics::lemma_agree_insert;
use crate::semantics::lemma_bounded_insert;
use crate::semantics::lemma_le_insert;
use crate::semantics::lemma_mu_fixed;
use crate::semantics::lemma_mu_least;
use crate::semantics::lemma_nu_fixed;
use crate::semantics::lemma_nu_greatest;
use crate::semantics::lemma_sem_bounded;
use crate::semantics::lemma_sem_frame;
use crate::semantics::lemma_sem_monotone;
use crate::semantics::mu;
use crate::semantics::nu;
use crate::semantics::sem;
use vstd::prelude::*;

verus! {

/// The value of a 32-bit counter after `n` increments from zero.
#[verifier::opaque]
pub open spec fn wrapped(n: int) -> u32 {
    (n % 0x1_0000_0000) as u32
}

/// A counter stands where one stands that has counted up to it.
pub proof fn lemma_wrapped_same(c: u32)
    ensures
        wrapped(c as int) == c,
{
    reveal(wrapped);
}

/// A counter that has counted `a` stands, after `b` more increments, where
/// one stands that has counted `a + b`.
pub proof fn lemma_wrapped_add(c: u32, a: int, b: int)
    requires
        a >= 0,
        b >= 0,
        c == wrapped(a),
    ensures
        wrapped(c + b) == wrapped(a + b),
        c.wrapping_add(1) == wrapped(a + 1),
{
    reveal(wrapped);
    let m = 0x1_0000_0000int;
    assert((a % m + b) % m == (a + b) % m) by {
        vstd::arithmetic::div_mod::lemma_add_mod_noop(a, b, m);
        vstd::arithmetic::div_mod::lemma_add_mod_noop(a % m, b, m);
        vstd::arithmetic::div_mod::lemma_mod_twice(a, m);
    }
}

/// The least (`least`) or greatest fixed-point binder of `var` over `body`.
pub open spec fn fix(least: bool, var: VarName, body: Formula) -> Formula {
    if least {
        mu(var, body)
    } else {
        nu(var, body)
    }
}

/// The set from which an iteration towards a fixed point starts when
/// nothing is known: no state for a least, every state for a greatest
/// fixed point.
pub open spec fn start(l: LtsView, least: bool) -> Set<State> {
    if least {
        Set::empty()
    } else {
        l.states
    }
}

/// What the body makes of `v`.
pub open spec fn image(l: LtsView, var: VarName, body: Formula, e: Valuation, v: Set<State>) -> Set<
    State,
> {
    sem(l, body, e.insert(var, v))
}

/// Iterating the body from `cur` reaches the fixed point: `cur` lies
/// between the side from which the iteration comes and the fixed point,
/// and the body moves it towards the fixed point.
pub open spec fn good(
    l: LtsView,
    least: bool,
    var: VarName,
    body: Formula,
    e: Valuation,
    cur: Set<State>,
) -> bool {
    let target = sem(l, fix(least, var, body), e);
    if least {
        cur.subset_of(target) && cur.subset_of(image(l, var, body, e, cur))
    } else {
        target.subset_of(cur) && image(l, var, body, e, cur).subset_of(cur) && cur.subset_of(
            l.states,
        )
    }
}

/// How many states `cur` can still gain (least) or lose (greatest).
pub open spec fn distance(l: LtsView, least: bool, cur: Set<State>) -> nat {
    if least {
        (l.states.len() - cur.len()) as nat
    } else {
        cur.len()
    }
}

/// A fixed point is a set of states.
pub proof fn lemma_fix_bounded(l: LtsView, least: bool, var: VarName, body: Formula, e: Valuation)
    ensures
        sem(l, fix(least, var, body), e).subset_of(l.states),
{
}

/// The iteration may start from the set that `start` gives.
pub proof fn lemma_good_start(l: LtsView, least: bool, var: VarName, body: Formula, e: Valuation)
    requires
        bounded_on(l, e, body.free().remove(var)),
    ensures
        good(l, least, var, body, e, start(l, least)),
{
    if !least {
        lemma_bounded_insert(l, e, body, var, l.states);
        lemma_sem_bounded(l, body, e.insert(var, l.states));
    }
}

/// One round of the iteration: the image of a good set is good, it lies on
/// the side of the fixed point, it is nearer to it unless nothing changed,
/// and where nothing changed the fixed point is reached.
pub proof fn lemma_good_step(
    l: LtsView,
    least: bool,
    var: VarName,
    body: Formula,
    e: Valuation,
    cur: Set<State>,
)
    requires
        l.states.finite(),
        bounded_on(l, e, body.free().remove(var)),
        good(l, least, var, body, e, cur),
    ensures
        good(l, least, var, body, e, image(l, var, body, e, cur)),
        cur.subset_of(l.states),
        image(l, var, body, e, cur).subset_of(l.states),
        least ==> cur.subset_of(image(l, var, body, e, cur)),
        !least ==> image(l, var, body, e, cur).subset_of(cur),
        image(l, var, body, e, cur) != cur ==> distance(l, least, image(l, var, body, e, cur))
            < distance(l, least, cur),
        image(l, var, body, e, cur) == cur ==> cur == sem(l, fix(least, var, body), e),
{
    let target = sem(l, fix(least, var, body), e);
    let next = image(l, var, body, e, cur);
    lemma_fix_bounded(l, least, var, body, e);
    lemma_bounded_insert(l, e, body, var, cur);
    lemma_sem_bounded(l, body, e.insert(var, cur));
    lemma_bounded_insert(l, e, body, var, next);
    if least {
        lemma_mu_fixed(l, var, body, e);
        lemma_le_insert(e, e, body, var, cur, target);
        lemma_sem_monotone(l, body, e.insert(var, cur), e.insert(var, target));
        lemma_le_insert(e, e, body, var, cur, next);
        lemma_sem_monotone(l, body, e.insert(var, cur), e.insert(var, next));
        if next == cur {
            lemma_mu_least(l, var, body, e, cur);
            assert(cur =~= target);
        } else {
            vstd::set_lib::lemma_len_subset(next, l.states);
            vstd::set_lib::lemma_len_subset(cur, next);
            if cur.len() == next.len() {
                vstd::set_lib::lemma_subset_equality(cur, next);
            }
        }
    } else {
        lemma_nu_fixed(l, var, body, e);
        lemma_le_insert(e, e, body, var, target, cur);
        lemma_sem_monotone(l, body, e.insert(var, target), e.insert(var, cur));
        lemma_le_insert(e, e, body, var, next, cur);
        lemma_sem_monotone(l, body, e.insert(var, next), e.insert(var, cur));
        if next == cur {
            lemma_nu_greatest(l, var, body, e, cur);
            assert(cur =~= target);
        } else {
            vstd::set_lib::lemma_len_subset(cur, l.states);
            vstd::set_lib::lemma_len_subset(next, cur);
            if cur.len() == next.len() {
                vstd::set_lib::lemma_subset_equality(next, cur);
            }
        }
    }
}

/// Whether a set is good is a matter of the free variables of the binder
/// only.
pub proof fn lemma_good_frame(
    l: LtsView,
    least: bool,
    var: VarName,
    body: Formula,
    e1: Valuation,
    e2: Valuation,
    cur: Set<State>,
)
    requires
        agree_on(e1, e2, body.free().remove(var)),
        good(l, least, var, body, e1, cur),
    ensures
        good(l, least, var, body, e2, cur),
{
    assert(fix(least, var, body).free() == body.free().remove(var));
    lemma_sem_frame(l, fix(least, var, body), e1, e2);
    lemma_agree_insert(e1, e2, body, var, cur);
    lemma_sem_frame(l, body, e1.insert(var, cur), e2.insert(var, cur));
}

/// A set that is good stays good when the free variables of the binder
/// move the way the iteration goes: up for a least, down for a greatest
/// fixed point.
pub proof fn lemma_good_grow(
    l: LtsView,
    least: bool,
    var: VarName,
    body: Formula,
    e1: Valuation,
    e2: Valuation,
    cur: Set<State>,
)
    requires
        least ==> le_on(e1, e2, body.free().remove(var)),
        !least ==> le_on(e2, e1, body.free().remove(var)),
        good(l, least, var, body, e1, cur),
    ensures
        good(l, least, var, body, e2, cur),
{
    assert(fix(least, var, body).free() == body.free().remove(var));
    if least {
        lemma_sem_monotone(l, fix(least, var, body), e1, e2);
        lemma_le_insert(e1, e2, body, var, cur, cur);
        lemma_sem_monotone(l, body, e1.insert(var, cur), e2.insert(var, cur));
    } else {
        lemma_sem_monotone(l, fix(least, var, body), e2, e1);
        lemma_le_insert(e2, e1, body, var, cur, cur);
        lemma_sem_monotone(l, body, e2.insert(var, cur), e1.insert(var, cur));
    }
}

/// The number of rounds that the iteration of `body` from `cur` makes
/// until nothing changes, the round that finds so included. `fuel` bounds
/// the number of rounds after the first.
pub open spec fn rounds(
    l: LtsView,
    var: VarName,
    body: Formula,
    e: Valuation,
    cur: Set<State>,
    fuel: nat,
) -> nat
    decreases fuel,
{
    if image(l, var, body, e, cur) == cur || fuel == 0 {
        1
    } else {
        1 + rounds(l, var, body, e, image(l, var, body, e, cur), (fuel - 1) as nat)
    }
}

/// What the iteration of `body` from `cur` ends with. `fuel` bounds the
/// number of rounds after the first.
pub open spec fn limit(
    l: LtsView,
    var: VarName,
    body: Formula,
    e: Valuation,
    cur: Set<State>,
    fuel: nat,
) -> Set<State>
    decreases fuel,
{
    if image(l, var, body, e, cur) == cur || fuel == 0 {
        image(l, var, body, e, cur)
    } else {
        limit(l, var, body, e, image(l, var, body, e, cur), (fuel - 1) as nat)
    }
}

/// The iteration makes at most one round more than it has fuel.
pub proof fn lemma_rounds_bound(
    l: LtsView,
    var: VarName,
    body: Formula,
    e: Valuation,
    cur: Set<State>,
    fuel: nat,
)
    ensures
        1 <= rounds(l, var, body, e, cur, fuel) <= fuel + 1,
    decreases fuel,
{
    if !(image(l, var, body, e, cur) == cur || fuel == 0) {
        lemma_rounds_bound(l, var, body, e, image(l, var, body, e, cur), (fuel - 1) as nat);
    }
}

/// The iteration from a good set with enough fuel ends with the fixed
/// point, and not because the fuel ran out.
pub proof fn lemma_limit(
    l: LtsView,
    least: bool,
    var: VarName,
    body: Formula,
    e: Valuation,
    cur: Set<State>,
    fuel: nat,
)
    requires
        l.states.finite(),
        bounded_on(l, e, body.free().remove(var)),
        good(l, least, var, body, e, cur),
        fuel >= distance(l, least, cur),
    ensures
        limit(l, var, body, e, cur, fuel) == sem(l, fix(least, var, body), e),
    decreases fuel,
{
    lemma_good_step(l, least, var, body, e, cur);
    if !(image(l, var, body, e, cur) == cur) {
        lemma_limit(l, least, var, body, e, image(l, var, body, e, cur), (fuel - 1) as nat);
    }
}

/// An iteration from a set nearer to the fixed point makes no more rounds
/// than one from a set that is farther from it.
pub proof fn lemma_rounds_nearer(
    l: LtsView,
    least: bool,
    var: VarName,
    body: Formula,
    e: Valuation,
    far: Set<State>,
    near: Set<State>,
    fuel: nat,
)
    requires
        l.states.finite(),
        bounded_on(l, e, body.free().remove(var)),
        good(l, least, var, body, e, far),
        good(l, least, var, body, e, near),
        least ==> far.subset_of(near),
        !least ==> near.subset_of(far),
    ensures
        rounds(l, var, body, e, near, fuel) <= rounds(l, var, body, e, far, fuel),
    decreases fuel,
{
    let target = sem(l, fix(least, var, body), e);
    lemma_good_step(l, least, var, body, e, far);
    lemma_good_step(l, least, var, body, e, near);
    if image(l, var, body, e, far) == far {
        assert(near =~= target);
        if least {
            lemma_mu_fixed(l, var, body, e);
        } else {
            lemma_nu_fixed(l, var, body, e);
        }
    } else if fuel > 0 && image(l, var, body, e, near) != near {
        if least {
            lemma_le_insert(e, e, body, var, far, near);
            lemma_sem_monotone(l, body, e.insert(var, far), e.insert(var, near));
        } else {
            lemma_le_insert(e, e, body, var, near, far);
            lemma_sem_monotone(l, body, e.insert(var, near), e.insert(var, far));
        }
        lemma_rounds_nearer(
            l,
            least,
            var,
            body,
            e,
            image(l, var, body, e, far),
            image(l, var, body, e, near),
            (fuel - 1) as nat,
        );
    } else {
        lemma_rounds_bound(l, var, body, e, far, fuel);
    }
}

/// A fixed point is good: the iteration from it ends at once.
pub proof fn lemma_good_fixed(l: LtsView, least: bool, var: VarName, body: Formula, e: Valuation)
    requires
        bounded_on(l, e, body.free().remove(var)),
    ensures
        good(l, least, var, body, e, sem(l, fix(least, var, body), e)),
{
    lemma_fix_bounded(l, least, var, body, e);
    if least {
        lemma_mu_fixed(l, var, body, e);
    } else {
        lemma_nu_fixed(l, var, body, e);
    }
}

/// The rounds of an iteration and what it ends with are a matter of the
/// free variables of the binder only.
pub proof fn lemma_rounds_frame(
    l: LtsView,
    var: VarName,
    body: Formula,
    e1: Valuation,
    e2: Valuation,
    cur: Set<State>,
    fuel: nat,
)
    requires
        agree_on(e1, e2, body.free().remove(var)),
    ensures
        rounds(l, var, body, e1, cur, fuel) == rounds(l, var, body, e2, cur, fuel),
        limit(l, var, body, e1, cur, fuel) == limit(l, var, body, e2, cur, fuel),
    decreases fuel,
{
    lemma_agree_insert(e1, e2, body, var, cur);
    lemma_sem_frame(l, body, e1.insert(var, cur), e2.insert(var, cur));
    if !(image(l, var, body, e1, cur) == cur || fuel == 0) {
        lemma_rounds_frame(l, var, body, e1, e2, image(l, var, body, e1, cur), (fuel - 1) as nat);
    }
}

} // verus!
