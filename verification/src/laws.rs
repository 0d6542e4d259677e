//! What holds of the evaluation of formulas, whatever the system and the
//! formula.

use crate::fixpoint::fix;
use crate::fixpoint::good;
use crate::fixpoint::lemma_good_start;
use crate::fixpoint::lemma_limit;
use crate::fixpoint::lemma_rounds_bound;
use crate::fixpoint::lemma_rounds_nearer;
use crate::fixpoint::limit;
use crate::fixpoint::rounds;
use crate::fixpoint::start;
use crate::improved::improved_iterations;
use crate::improved::improved_loop;
use crate::lts::LtsView;
use crate::lts::State;
use crate::mu_calculus::Formula;
use crate::mu_calculus::VarName;
use crate::naive::naive_iterations;
use crate::ready::Scope;
use crate::ready::lemma_ready_settled;
use crate::semantics::Valuation;
use crate::semantics::agree_on;
use crate::semantics::bounded_on;
use crate::semantics::boxed;
use crate::semantics::diamond;
use crate::semantics::le_on;
use crate::semantics::lemma_sem_monotone;
use crate::semantics::satisfying;
use crate::semantics::sem;
use crate::sweep::lemma_seeded_bound;
use crate::sweep::lemma_sweep_settles;
use crate::sweep::lemma_sweep_within;
use crate::sweep::sweep;
use crate::work::lemma_improved_plain_loop;
use crate::work::lemma_naive_plain_loop;
use crate::work::lemma_seeded_whatever;
use crate::work::lemma_shallow_steady;
use crate::work::lemma_steady;
use crate::work::steady;
use vstd::prelude::*;

verus! {

/// Evaluating a formula on a system twice gives the same set of states.
pub proof fn law_evaluation_repeats(
    l: LtsView,
    f: Formula,
    first: Set<State>,
    second: Set<State>,
)
    requires
        first == satisfying(l, f),
        second == satisfying(l, f),
    ensures
        first == second,
{
}

/// The naive and the improved evaluator find the same set of states: what
/// either returns is the set of states that satisfy the formula.
pub proof fn law_evaluators_agree(
    l: LtsView,
    f: Formula,
    naive: Set<State>,
    improved: Set<State>,
)
    requires
        naive == satisfying(l, f),
        improved == satisfying(l, f),
    ensures
        naive == improved,
{
}

/// The meaning of a formula grows with the environment: where every
/// variable stands for a subset of what it stands for in another
/// environment, the formula is satisfied by a subset of the states that
/// satisfy it in the other.
pub proof fn law_monotone(l: LtsView, g: Formula, e1: Valuation, e2: Valuation)
    requires
        forall|x: VarName| (#[trigger] e1[x]).subset_of(e2[x]),
    ensures
        sem(l, g, e1).subset_of(sem(l, g, e2)),
{
    assert(le_on(e1, e2, g.free()));
    lemma_sem_monotone(l, g, e1, e2);
}

/// Box and diamond are dual: where `g` is satisfied by just the states
/// that do not satisfy `f`, `[a]f` is satisfied by just the states that do
/// not satisfy `<a>g`.
pub proof fn law_duality(l: LtsView, step: String, f: Formula, g: Formula, e: Valuation)
    requires
        l.wf(),
        sem(l, g, e) == l.states.difference(sem(l, f, e)),
    ensures
        sem(l, Formula::Box { step, f: Box::new(f) }, e) == l.states.difference(
            sem(l, Formula::Diamond { step, f: Box::new(g) }, e),
        ),
{
    let a = step@;
    let yes = sem(l, f, e);
    let no = sem(l, g, e);
    let left = boxed(l, a, yes);
    let right = l.states.difference(diamond(l, a, no));
    assert forall|s: State| left.contains(s) <==> right.contains(s) by {
        if left.contains(s) && diamond(l, a, no).contains(s) {
            let i = choose|i: int|
                0 <= i < l.targets(s, a).len() && no.contains(#[trigger] l.targets(s, a)[i]);
            assert(yes.contains(l.targets(s, a)[i]));
        }
        if right.contains(s) {
            assert forall|i: int| 0 <= i < l.targets(s, a).len() implies yes.contains(
                #[trigger] l.targets(s, a)[i],
            ) by {
                assert(l.states.contains(l.targets(s, a)[i]));
                if !yes.contains(l.targets(s, a)[i]) {
                    assert(no.contains(l.targets(s, a)[i]));
                }
            }
        }
    }
    assert(left =~= right);
}

/// The iteration of a fixed point from no state, or from every state,
/// makes at most one round more than there are states, and ends with the
/// fixed point.
pub proof fn law_rounds_bounded(l: LtsView, least: bool, var: VarName, body: Formula, e: Valuation)
    requires
        l.states.finite(),
        bounded_on(l, e, body.free().remove(var)),
    ensures
        rounds(l, var, body, e, start(l, least), l.states.len()) <= l.states.len() + 1,
        limit(l, var, body, e, start(l, least), l.states.len()) == sem(
            l,
            fix(least, var, body),
            e,
        ),
{
    lemma_rounds_bound(l, var, body, e, start(l, least), l.states.len());
    lemma_good_start(l, least, var, body, e);
    if least {
        assert(start(l, least).len() == 0);
    }
    lemma_limit(l, least, var, body, e, start(l, least), l.states.len());
}

/// A fixed point over a body without binders costs either evaluator at
/// least one iteration and at most one more than there are states: the
/// naive evaluator, which starts from no state or from every state, and
/// the improved one, whatever the variable stands for when it begins.
pub proof fn law_iterations_bounded(
    l: LtsView,
    least: bool,
    var: VarName,
    body: Formula,
    e: Valuation,
)
    requires
        body.spec_nesting_depth() == 0,
    ensures
        1 <= naive_iterations(l, fix(least, var, body), e) <= l.states.len() + 1,
        1 <= improved_loop(l, least, var, body, e, l.states.len()).1 <= l.states.len() + 1,
{
    let n = l.states.len();
    lemma_naive_plain_loop(l, body, var, e, start(l, least), n);
    lemma_rounds_bound(l, var, body, e, start(l, least), n);
    lemma_improved_plain_loop(l, least, var, body, e, n);
    lemma_rounds_bound(l, var, body, e, e[var], n);
}

/// The iteration of a fixed point from a good set, as the improved
/// evaluator makes it, takes no more rounds than the iteration from no
/// state, or from every state, as the naive evaluator makes it.
pub proof fn law_fewer_rounds(
    l: LtsView,
    least: bool,
    var: VarName,
    body: Formula,
    e: Valuation,
    cur: Set<State>,
)
    requires
        l.states.finite(),
        bounded_on(l, e, body.free().remove(var)),
        good(l, least, var, body, e, cur),
    ensures
        rounds(l, var, body, e, cur, l.states.len()) <= rounds(
            l,
            var,
            body,
            e,
            start(l, least),
            l.states.len(),
        ),
{
    lemma_good_start(l, least, var, body, e);
    crate::fixpoint::lemma_fix_bounded(l, least, var, body, e);
    lemma_rounds_nearer(l, least, var, body, e, start(l, least), cur, l.states.len());
}

/// The nesting depth of a formula is at least its alternation depth, and
/// that is at least its dependent alternation depth; a formula without a
/// binder has depth 0 in all three senses.
pub proof fn law_depths(f: Formula)
    ensures
        f.spec_nesting_depth() >= f.spec_alternation_depth() >= f.spec_dependent_ad(),
        f is True || f is False || f is Var ==> f.spec_nesting_depth() == 0
            && f.spec_alternation_depth() == 0 && f.spec_dependent_ad() == 0,
{
    f.lemma_depths_ordered();
}

/// The improved evaluator makes no more fixed-point iterations than the
/// naive one on every closed formula whose binders bind distinct variables
/// and on which it keeps step with the naive one: every binder with a
/// binder in its body stands outside all binders, or is open and stands
/// right under a binder of the other kind. All formulas that nest binders
/// at most two deep are such. It does not hold of all formulas: on the
/// system of the states 0 to 8 with the transitions `init` from 0 to 0,
/// `b` from each other state to 0 and `a` from each other state to the
/// next lower one, the formula
/// `mu X. ((<init>true || <b>X) || mu Y. (X || mu Z. (Y || (X && <a>Z))))`
/// takes the naive evaluator 15 iterations and the improved one 22.
pub proof fn law_improved_iterates_no_more(l: LtsView, f: Formula)
    requires
        l.wf(),
        f.distinct_binders(),
        f.closed(),
        steady(f, Scope::Top),
    ensures
        improved_iterations(l, f) <= naive_iterations(l, f, Map::empty()),
{
    f.lemma_distinct_scoped();
    let empty = Map::<VarName, Set<State>>::empty();
    let e = sweep(l, None, f.spec_subformulas(), empty);
    lemma_sweep_settles(l, None, f, empty);
    lemma_sweep_within(l, None, f.spec_subformulas(), empty);
    lemma_seeded_bound(l, f, empty, e);
    lemma_seeded_whatever(l, f, empty, e, e);
    assert(bounded_on(l, e, f.free().union(f.declared()))) by {
        assert forall|x: VarName| f.free().union(f.declared()).contains(x) implies (
        #[trigger] e[x]).subset_of(l.states) by {
            assert(e.dom().contains(x));
        }
    }
    lemma_ready_settled(l, None, f, Scope::Top, empty, e);
    assert(agree_on(e, empty, f.free()));
    lemma_steady(l, f, Scope::Top, e, empty);
}

/// In particular, the improved evaluator makes no more fixed-point
/// iterations than the naive one on every closed formula whose binders
/// bind distinct variables and that nests binders at most two deep.
pub proof fn law_improved_iterates_no_more_when_shallow(l: LtsView, f: Formula)
    requires
        l.wf(),
        f.distinct_binders(),
        f.closed(),
        f.spec_nesting_depth() <= 2,
    ensures
        improved_iterations(l, f) <= naive_iterations(l, f, Map::empty()),
{
    lemma_shallow_steady(f, Scope::Top);
    law_improved_iterates_no_more(l, f);
}

} // verus!
