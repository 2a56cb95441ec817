//! The DPLL driver.
//!
//! The outer loop checks for satisfaction or an all-false clause, selects
//! the next unassigned variable, and guesses a polarity for it. A guess runs
//! unit propagation and then pure-literal elimination inside a fresh
//! inference context; a conflicting guess is rolled back and the opposite
//! polarity tried. When both polarities of a decision conflict, the driver
//! backtracks chronologically: it unwinds committed decisions one level at
//! a time, flipping the most recent one whose opposite polarity was never
//! tried, and reports the formula unsatisfiable only once every level is
//! exhausted.

use vstd::prelude::*;
use crate::assumptions::{
    Assumption, AssumptionStore, lemma_trail_value_extend, lit_value, trail_consistent,
    trail_value,
};
use crate::clause::{
    agrees_with, assignment_satisfies, clause_satisfied, clause_unsatisfiable,
    lemma_unsat_clause_semantics, makes_true, sat_clauses, Clause,
};
use crate::literal::{Literal, Variable};
use crate::pure_literal_elimination::{eliminate, lemma_pure_extension_sat, patched};
use crate::unit_propagation::{
    clauses_view, lemma_unknown_count_le_len, lemma_unknown_count_lt, propagate, unknown_count,
};

verus! {

/// The candidate variables are strictly ordered by identifier.
spec fn vars_sorted(vs: Seq<Variable>) -> bool {
    forall|i: int, j: int| 0 <= i < j < vs.len() ==> vs[i].0 < vs[j].0
}

/// The candidate list holds every variable mentioned in any clause.
spec fn covers_clauses(vs: Seq<Variable>, clauses: Seq<Clause>) -> bool {
    forall|j: int, i: int|
        0 <= j < clauses.len() && 0 <= i < clauses[j]@.len() ==> vs.contains(
            #[trigger] clauses[j]@[i].variable,
        )
}

/// Insert `v` into the sorted candidate list unless it is already there.
fn insert_var(vars: &mut Vec<Variable>, v: Variable)
    requires
        vars_sorted(old(vars)@),
    ensures
        vars_sorted(final(vars)@),
        forall|x: Variable| final(vars)@.contains(x) <==> (old(vars)@.contains(x) || x == v),
{
    let mut m: usize = 0;
    while m < vars.len() && vars[m].0 < v.0
        invariant
            m <= vars@.len(),
            forall|i: int| 0 <= i < m ==> vars@[i].0 < v.0,
            vars_sorted(vars@),
            vars@ == old(vars)@,
        decreases vars@.len() - m,
    {
        m = m + 1;
    }
    if m < vars.len() && vars[m].0 == v.0 {
        // Identifiers are the whole identity of a variable.
        proof {
            assert(vars@[m as int] == v);
            assert(vars@.contains(v));
            assert forall|x: Variable| vars@.contains(x) <==> (old(vars)@.contains(x) || x
                == v) by {}
        }
        return;
    }
    let ghost vi0 = vars@;
    vars.insert(m, v);
    proof {
        assert forall|i: int, j: int| 0 <= i < j < vars@.len() implies vars@[i].0 < vars@[j].0 by {
            if j < m {
                assert(vars@[i] == vi0[i] && vars@[j] == vi0[j]);
            } else if j == m {
                assert(vars@[i] == vi0[i]);
            } else if i == m {
                assert(vars@[j] == vi0[j - 1]);
                assert(m < vi0.len() ==> vi0[m as int].0 > v.0);
                assert(m <= j - 1 && (m < j - 1 ==> vi0[m as int].0 <= vi0[j - 1].0));
            } else if i < m {
                assert(vars@[i] == vi0[i] && vars@[j] == vi0[j - 1]);
                if i == j - 1 {
                    assert(vi0[i].0 < v.0);
                    assert(m < vi0.len() ==> vi0[m as int].0 > v.0);
                }
            } else {
                assert(vars@[i] == vi0[i - 1] && vars@[j] == vi0[j - 1]);
            }
        }
        assert forall|x: Variable| vars@.contains(x) <==> (vi0.contains(x) || x == v) by {
            if vars@.contains(x) {
                let idx = choose|idx: int| 0 <= idx < vars@.len() && vars@[idx] == x;
                if idx < m {
                    assert(vi0[idx] == x);
                } else if idx > m {
                    assert(vi0[idx - 1] == x);
                }
            }
            if x == v {
                assert(vars@[m as int] == x);
            }
            if vi0.contains(x) {
                let idx = choose|idx: int| 0 <= idx < vi0.len() && vi0[idx] == x;
                if idx < m {
                    assert(vars@[idx] == x);
                } else {
                    assert(vars@[idx + 1] == x);
                }
            }
        }
    }
}

/// Whether every clause is satisfied under the current assumptions.
fn all_satisfied(clauses: &[Clause], assumptions: &AssumptionStore) -> (r: bool)
    ensures
        r == forall|j: int|
            0 <= j < clauses@.len() ==> clause_satisfied(#[trigger] clauses@[j]@, assumptions.trail()),
{
    let mut j: usize = 0;
    while j < clauses.len()
        invariant
            j <= clauses@.len(),
            forall|jj: int|
                0 <= jj < j ==> clause_satisfied(#[trigger] clauses@[jj]@, assumptions.trail()),
        decreases clauses@.len() - j,
    {
        if !clauses[j].is_satisfied(assumptions) {
            return false;
        }
        j = j + 1;
    }
    true
}

/// Whether some clause is all-false under the current assumptions.
fn any_unsatisfiable(clauses: &[Clause], assumptions: &AssumptionStore) -> (r: bool)
    ensures
        r == exists|j: int|
            0 <= j < clauses@.len() && clause_unsatisfiable(
                #[trigger] clauses@[j]@,
                assumptions.trail(),
            ),
{
    let mut j: usize = 0;
    while j < clauses.len()
        invariant
            j <= clauses@.len(),
            forall|jj: int|
                0 <= jj < j ==> !clause_unsatisfiable(#[trigger] clauses@[jj]@, assumptions.trail()),
        decreases clauses@.len() - j,
    {
        if clauses[j].is_unsatisfiable(assumptions) {
            return true;
        }
        j = j + 1;
    }
    false
}

/// Select the unassigned variable with the smallest identifier and pair it
/// with positive polarity; `None` when every candidate is assigned.
fn get_next_variable(candidates: &Vec<Variable>, assumptions: &AssumptionStore) -> (r: Option<
    Literal,
>)
    requires
        vars_sorted(candidates@),
    ensures
        match r {
            Some(l) => l.polarity == true && candidates@.contains(l.variable) && trail_value(
                assumptions.trail(),
                l.variable,
            ) == Assumption::Unknown && forall|i: int|
                0 <= i < candidates@.len() && candidates@[i].0 < l.variable.0 ==> trail_value(
                    assumptions.trail(),
                    #[trigger] candidates@[i],
                ) != Assumption::Unknown,
            None => forall|i: int|
                0 <= i < candidates@.len() ==> trail_value(assumptions.trail(), candidates@[i])
                    != Assumption::Unknown,
        },
{
    // No tuning of the selection order: plain ascending identifiers.
    let mut k: usize = 0;
    while k < candidates.len()
        invariant
            k <= candidates@.len(),
            vars_sorted(candidates@),
            forall|i: int|
                0 <= i < k ==> trail_value(assumptions.trail(), candidates@[i])
                    != Assumption::Unknown,
        decreases candidates@.len() - k,
    {
        let v = candidates[k];
        if assumptions.get_var(v) == Assumption::Unknown {
            proof {
                // Sorting puts every smaller identifier before position `k`.
                assert forall|i: int|
                    0 <= i < candidates@.len() && candidates@[i].0 < v.0 implies trail_value(
                    assumptions.trail(),
                    #[trigger] candidates@[i],
                ) != Assumption::Unknown by {
                    if i >= k {
                        assert(candidates@[k as int].0 <= candidates@[i].0);
                    }
                }
            }
            return Some(Literal::new(v, true));
        }
        k = k + 1;
    }
    None
}

/// Open an inference context and try `new_lit`: propagate it to fixpoint,
/// then eliminate pure literals. A conflict rolls the context back, leaving
/// the store exactly as it was; success keeps the context open and leaves
/// `new_lit` true on the trail.
fn make_guess(new_lit: Literal, clauses: &[Clause], assumptions: &mut AssumptionStore) -> (r: bool)
    requires
        old(assumptions).wf(),
    ensures
        final(assumptions).wf(),
        !r ==> final(assumptions).trail() == old(assumptions).trail(),
        !r ==> final(assumptions).bounds() == old(assumptions).bounds(),
        r ==> final(assumptions).trail().len() >= old(assumptions).trail().len(),
        r ==> final(assumptions).trail().take(old(assumptions).trail().len() as int) == old(
            assumptions,
        ).trail(),
        r ==> lit_value(final(assumptions).trail(), new_lit) == Assumption::Assume(true),
        // success leaves exactly one new unmatched checkpoint, opened at the
        // old trail length
        r ==> final(assumptions).bounds().len() == old(assumptions).bounds().len() + 1,
        r ==> final(assumptions).bounds().drop_last() == old(assumptions).bounds(),
        r ==> final(assumptions).bounds().last() as nat == old(assumptions).trail().len(),
        // failure is sound: no satisfying assignment both agrees with the
        // untouched trail and makes the guessed literal true
        !r ==> forall|a: spec_fn(Variable) -> bool|
            #![trigger agrees_with(a, old(assumptions).trail())]
            agrees_with(a, old(assumptions).trail()) && makes_true(a, new_lit) ==> !sat_clauses(
                a,
                clauses_view(clauses@),
            ),
        // success preserves satisfiability: a satisfying assignment under
        // this guess yields one agreeing with the whole extended trail
        r ==> ((exists|a: spec_fn(Variable) -> bool|
            #![trigger agrees_with(a, old(assumptions).trail())]
            agrees_with(a, old(assumptions).trail()) && makes_true(a, new_lit) && sat_clauses(
                a,
                clauses_view(clauses@),
            )) ==> (exists|a: spec_fn(Variable) -> bool|
            #![trigger agrees_with(a, final(assumptions).trail())]
            agrees_with(a, final(assumptions).trail()) && sat_clauses(
                a,
                clauses_view(clauses@),
            ))),
{
    let ghost t0 = assumptions.trail();
    let ghost b0 = assumptions.bounds();
    let ghost cv = clauses_view(clauses@);
    assumptions.new_inference();

    // Try unit propagation.
    if !propagate(clauses, new_lit, assumptions) {
        // There's a conflict: roll back and let the driver try the other
        // polarity.
        proof {
            assert(assumptions.bounds().last() as nat == t0.len());
        }
        let ghost t2 = assumptions.trail();
        assumptions.rollback_inference();
        proof {
            assert(assumptions.trail() =~= t2.take(t0.len() as int));
            assert(assumptions.bounds() =~= b0);
        }
        return false;
    }

    let ghost t_prop = assumptions.trail();
    // Eliminate pure literals (this cannot generate conflicts).
    eliminate(clauses, assumptions);
    proof {
        assert(assumptions.trail().take(t0.len() as int) =~= t_prop.take(t0.len() as int));
        lemma_trail_value_extend(t_prop, assumptions.trail(), new_lit.variable);
        if exists|a: spec_fn(Variable) -> bool|
            #![trigger agrees_with(a, t0)]
            agrees_with(a, t0) && makes_true(a, new_lit) && sat_clauses(a, cv) {
            let a = choose|a: spec_fn(Variable) -> bool|
                #![trigger agrees_with(a, t0)]
                agrees_with(a, t0) && makes_true(a, new_lit) && sat_clauses(a, cv);
            // propagation only committed forced literals ...
            assert(agrees_with(a, t_prop));
            // ... and the pure additions can be adopted wholesale
            lemma_pure_extension_sat(a, cv, t_prop, assumptions.trail());
            let a2 = patched(a, assumptions.trail());
            assert(agrees_with(a2, assumptions.trail()) && sat_clauses(a2, cv));
        }
    }
    true
}

/// The opposite literal.
spec fn neg_lit(l: Literal) -> Literal {
    Literal { variable: l.variable, polarity: !l.polarity }
}

/// The trail as it was when decision level `k` was opened.
spec fn prefix_at(s: AssumptionStore, k: int) -> Seq<Literal> {
    s.trail().take(s.bounds()[k] as int)
}

/// Some satisfying assignment agrees with the trail `t`.
spec fn sat_agreeing(cv: Seq<Seq<Literal>>, t: Seq<Literal>) -> bool {
    exists|a: spec_fn(Variable) -> bool|
        #![trigger agrees_with(a, t)]
        sat_clauses(a, cv) && agrees_with(a, t)
}

/// Some satisfying assignment exists at all.
spec fn sat_exists(cv: Seq<Seq<Literal>>) -> bool {
    exists|a: spec_fn(Variable) -> bool| sat_clauses(a, cv)
}

/// Decision level `k` still hides an untried branch that some satisfying
/// assignment would take: the level is unflipped, and a satisfying
/// assignment agrees with the trail that opened it while making the
/// opposite guess true.
spec fn open_branch(
    s: AssumptionStore,
    d: Seq<(Literal, bool)>,
    cv: Seq<Seq<Literal>>,
    k: int,
) -> bool {
    &&& !d[k].1
    &&& exists|a: spec_fn(Variable) -> bool|
        #![trigger agrees_with(a, prefix_at(s, k))]
        sat_clauses(a, cv) && agrees_with(a, prefix_at(s, k)) && makes_true(a, neg_lit(d[k].0))
}

/// The search frontier still covers every satisfying assignment: if any
/// exists, one is compatible with the current branch, or with flipping
/// some decision that was not yet flipped.
spec fn frontier(s: AssumptionStore, d: Seq<(Literal, bool)>, cv: Seq<Seq<Literal>>) -> bool {
    sat_exists(cv) ==> sat_agreeing(cv, s.trail()) || exists|k: int|
        #![auto]
        0 <= k < d.len() && open_branch(s, d, cv, k)
}

/// The decision stack mirrors the boundary stack: one open checkpoint per
/// decision, each decision variable a candidate still unknown when its
/// level opened, and the depth bounded through the unknown-variable count.
spec fn stack_ok(s: AssumptionStore, d: Seq<(Literal, bool)>, vs: Seq<Variable>, n: nat) -> bool {
    &&& d.len() == s.bounds().len()
    &&& n == vs.len()
    &&& forall|k: int|
        0 <= k < d.len() ==> trail_value(prefix_at(s, k), (#[trigger] d[k]).0.variable)
            == Assumption::Unknown
    &&& forall|k: int| 0 <= k < d.len() ==> vs.contains((#[trigger] d[k]).0.variable)
    &&& forall|k: int|
        0 <= k < d.len() ==> k + unknown_count(vs, prefix_at(s, k)) <= n
    &&& d.len() + unknown_count(vs, s.trail()) <= n
}

/// The stack invariant reads the store only through its trail and
/// boundary stack, so it carries over between stores with equal views.
proof fn lemma_stack_same_views(
    s1: AssumptionStore,
    s2: AssumptionStore,
    d: Seq<(Literal, bool)>,
    vs: Seq<Variable>,
    n: nat,
)
    requires
        s1.trail() == s2.trail(),
        s1.bounds() == s2.bounds(),
        stack_ok(s1, d, vs, n),
    ensures
        stack_ok(s2, d, vs, n),
        forall|k: int| 0 <= k < d.len() ==> prefix_at(s2, k) == prefix_at(s1, k),
{
    assert forall|k: int| 0 <= k < d.len() implies prefix_at(s2, k) == prefix_at(s1, k) by {}
}

/// So does the frontier.
proof fn lemma_same_views(
    s1: AssumptionStore,
    s2: AssumptionStore,
    d: Seq<(Literal, bool)>,
    vs: Seq<Variable>,
    n: nat,
    cv: Seq<Seq<Literal>>,
)
    requires
        s1.trail() == s2.trail(),
        s1.bounds() == s2.bounds(),
        stack_ok(s1, d, vs, n),
        frontier(s1, d, cv),
    ensures
        stack_ok(s2, d, vs, n),
        frontier(s2, d, cv),
{
    lemma_stack_same_views(s1, s2, d, vs, n);
    if sat_exists(cv) {
        if sat_agreeing(cv, s1.trail()) {
        } else {
            let k = choose|k: int| #![auto] 0 <= k < d.len() && open_branch(s1, d, cv, k);
            assert(open_branch(s2, d, cv, k));
        }
    }
}

/// Two to the `n`.
spec fn exp2(n: nat) -> nat
    decreases n,
{
    if n == 0 {
        1
    } else {
        2 * exp2((n - 1) as nat)
    }
}

/// The decision stack read as a binary numeral in a tree of depth `n`:
/// each flipped level contributes its weight. Progress in the search
/// strictly grows this value.
spec fn branch_value(d: Seq<(Literal, bool)>, n: nat) -> nat
    decreases d.len(),
{
    if d.len() == 0 || n == 0 {
        0
    } else {
        (if d[0].1 {
            exp2((n - 1) as nat)
        } else {
            0
        }) + branch_value(d.drop_first(), (n - 1) as nat)
    }
}

proof fn lemma_exp2_pos(n: nat)
    ensures
        exp2(n) >= 1,
    decreases n,
{
    if n > 0 {
        lemma_exp2_pos((n - 1) as nat);
    }
}

proof fn lemma_branch_value_bound(d: Seq<(Literal, bool)>, n: nat)
    requires
        d.len() <= n,
    ensures
        branch_value(d, n) + exp2((n - d.len()) as nat) <= exp2(n),
    decreases d.len(),
{
    if d.len() > 0 {
        lemma_branch_value_bound(d.drop_first(), (n - 1) as nat);
    }
}

proof fn lemma_branch_value_concat(d1: Seq<(Literal, bool)>, d2: Seq<(Literal, bool)>, n: nat)
    requires
        d1.len() + d2.len() <= n,
    ensures
        branch_value(d1 + d2, n) == branch_value(d1, n) + branch_value(
            d2,
            (n - d1.len()) as nat,
        ),
    decreases d1.len(),
{
    if d1.len() == 0 {
        assert(d1 + d2 =~= d2);
    } else {
        assert((d1 + d2)[0] == d1[0]);
        assert((d1 + d2).drop_first() =~= d1.drop_first() + d2);
        lemma_branch_value_concat(d1.drop_first(), d2, (n - 1) as nat);
    }
}

proof fn lemma_branch_value_push(d: Seq<(Literal, bool)>, e: (Literal, bool), n: nat)
    requires
        d.len() + 1 <= n,
    ensures
        branch_value(d.push(e), n) == branch_value(d, n) + (if e.1 {
            exp2((n - d.len() - 1) as nat)
        } else {
            0
        }),
{
    assert(d.push(e) =~= d + seq![e]);
    lemma_branch_value_concat(d, seq![e], n);
    assert(seq![e].drop_first() =~= Seq::<(Literal, bool)>::empty());
    assert(branch_value(Seq::<(Literal, bool)>::empty(), (n - d.len() - 1) as nat) == 0);
    assert(seq![e][0] == e);
    assert(branch_value(seq![e], (n - d.len()) as nat) == (if e.1 {
        exp2((n - d.len() - 1) as nat)
    } else {
        0
    }));
}

/// Flipping the deepest unflipped decision strictly advances the search
/// in the tree ordering, whatever stood above it.
proof fn lemma_branch_value_flip(d: Seq<(Literal, bool)>, j: int, e: (Literal, bool), n: nat)
    requires
        0 <= j < d.len(),
        d.len() <= n,
        !d[j].1,
        e.1,
    ensures
        branch_value(d.take(j).push(e), n) > branch_value(d, n),
{
    assert(d =~= d.take(j) + d.skip(j));
    lemma_branch_value_concat(d.take(j), d.skip(j), n);
    let k = (n - j) as nat;
    assert(d.skip(j)[0] == d[j]);
    assert(d.skip(j).drop_first() =~= d.skip(j + 1));
    assert(branch_value(d.skip(j), k) == branch_value(d.skip(j + 1), (k - 1) as nat));
    lemma_branch_value_bound(d.skip(j + 1), (k - 1) as nat);
    lemma_exp2_pos((k - 1 - d.skip(j + 1).len()) as nat);
    assert(branch_value(d.skip(j), k) < exp2((k - 1) as nat));
    lemma_branch_value_push(d.take(j), e, n);
}

/// Chronological backtracking: discard decision levels from the newest
/// down, and resume at the first level whose opposite polarity was never
/// tried and survives propagation. Returns `false` — the whole search
/// space is exhausted — only once every level is gone.
fn backtrack(
    clauses: &[Clause],
    assumptions: &mut AssumptionStore,
    decisions: &mut Vec<(Literal, bool)>,
    Ghost(vs): Ghost<Seq<Variable>>,
) -> (r: bool)
    requires
        old(assumptions).wf(),
        stack_ok(*old(assumptions), old(decisions)@, vs, vs.len()),
        !sat_agreeing(clauses_view(clauses@), old(assumptions).trail()),
        frontier(*old(assumptions), old(decisions)@, clauses_view(clauses@)),
    ensures
        final(assumptions).wf(),
        stack_ok(*final(assumptions), final(decisions)@, vs, vs.len()),
        !r ==> !sat_exists(clauses_view(clauses@)),
        r ==> frontier(*final(assumptions), final(decisions)@, clauses_view(clauses@)),
        r ==> branch_value(final(decisions)@, vs.len()) > branch_value(
            old(decisions)@,
            vs.len(),
        ),
{
    let ghost cv = clauses_view(clauses@);
    let ghost d0 = old(decisions)@;
    let ghost n = vs.len();
    loop
        invariant
            assumptions.wf(),
            cv == clauses_view(clauses@),
            n == vs.len(),
            d0 == old(decisions)@,
            stack_ok(*old(assumptions), d0, vs, n),
            stack_ok(*assumptions, decisions@, vs, n),
            decisions@.len() <= d0.len(),
            decisions@ == d0.take(decisions@.len() as int),
            forall|k: int|
                0 <= k < decisions@.len() ==> prefix_at(*assumptions, k) == prefix_at(
                    *old(assumptions),
                    k,
                ),
            sat_exists(cv) ==> exists|k: int|
                #![auto]
                0 <= k < decisions@.len() && open_branch(*old(assumptions), d0, cv, k),
        decreases decisions@.len(),
    {
        let popped = decisions.pop();
        match popped {
            None => {
                proof {
                    if sat_exists(cv) {
                        let k = choose|k: int|
                            #![auto]
                            0 <= k < 0 && open_branch(*old(assumptions), d0, cv, k);
                        assert(false);
                    }
                }
                return false;
            },
            Some((l, flipped)) => {
                let ghost j = decisions@.len() as int;
                let ghost s_pre = *assumptions;
                assumptions.rollback_inference();
                proof {
                    // the restored trail is exactly the prefix that opened
                    // the popped level, and older prefixes are untouched
                    assert(assumptions.trail() == prefix_at(s_pre, j));
                    assert forall|k: int|
                        0 <= k < j implies prefix_at(*assumptions, k) == prefix_at(s_pre, k) by {
                        assert(assumptions.bounds()[k] == s_pre.bounds()[k]);
                        assert(s_pre.bounds()[k] <= s_pre.bounds()[j]);
                        assert(assumptions.trail().take(s_pre.bounds()[k] as int)
                            =~= s_pre.trail().take(s_pre.bounds()[k] as int));
                    }
                    assert forall|k: int|
                        0 <= k < j implies k + unknown_count(vs, prefix_at(*assumptions, k))
                            <= n by {
                        assert(prefix_at(*assumptions, k) == prefix_at(s_pre, k));
                    }
                    assert(d0.take(j) =~= d0.take(j + 1).take(j));
                    assert(stack_ok(*assumptions, decisions@, vs, n));
                }
                if !flipped {
                    let ghost s_roll = *assumptions;
                    let ghost t_here = assumptions.trail();
                    let flip = l.negate();
                    proof {
                        assert(flip == neg_lit(l));
                        assert(d0[j] == (l, flipped));
                    }
                    if make_guess(flip, clauses, assumptions) {
                        decisions.push((flip, true));
                        proof {
                            // structure: the flipped level reuses the same
                            // variable, unknown at this very prefix
                            assert(decisions@ =~= d0.take(j).push((flip, true)));
                            assert(assumptions.bounds().drop_last() == s_pre.bounds().drop_last());
                            assert forall|k: int|
                                0 <= k < decisions@.len() implies prefix_at(*assumptions, k)
                                    == prefix_at(*old(assumptions), k) by {
                                if k < j {
                                    assert(assumptions.bounds().drop_last()[k]
                                        == assumptions.bounds()[k]);
                                    assert(s_pre.bounds().drop_last()[k] == s_pre.bounds()[k]);
                                    assert(assumptions.bounds()[k] == s_pre.bounds()[k]);
                                    assert(s_pre.bounds()[k] as nat <= t_here.len());
                                    assert(assumptions.trail().take(s_pre.bounds()[k] as int)
                                        =~= t_here.take(s_pre.bounds()[k] as int));
                                } else {
                                    assert(assumptions.bounds()[k] as nat == t_here.len());
                                    assert(assumptions.trail().take(t_here.len() as int)
                                        == t_here);
                                    assert(prefix_at(*old(assumptions), j) == prefix_at(
                                        s_pre,
                                        j,
                                    ));
                                }
                            }
                            assert(assumptions.bounds().last() as nat == t_here.len());
                            assert(assumptions.bounds()[j] == assumptions.bounds().last());
                            assert(assumptions.trail().take(t_here.len() as int) == t_here);
                            assert(prefix_at(*assumptions, j) =~= t_here);
                            assert(trail_value(t_here, flip.variable) == Assumption::Unknown);
                            lemma_count_shrinks(
                                vs,
                                t_here,
                                assumptions.trail(),
                                flip.variable,
                            );
                            assert(stack_ok(*assumptions, decisions@, vs, n));
                            // progress: the flip advances the tree position
                            assert(d0.len() + unknown_count(vs, old(assumptions).trail())
                                <= n);
                            lemma_branch_value_flip(d0, j, (flip, true), n);
                            // the frontier is preserved: the covering
                            // branch is either deeper than the flip or the
                            // flip itself
                            if sat_exists(cv) {
                                let k = choose|k: int|
                                    #![auto]
                                    0 <= k < j + 1 && open_branch(*old(assumptions), d0, cv, k);
                                if k < j {
                                    assert(decisions@[k] == d0[k]);
                                    assert(prefix_at(*assumptions, k) == prefix_at(
                                        *old(assumptions),
                                        k,
                                    ));
                                    assert(open_branch(*assumptions, decisions@, cv, k));
                                } else {
                                    // the satisfying assignment took the
                                    // opposite branch: adopt the new trail
                                    let a = choose|a: spec_fn(Variable) -> bool|
                                        #![trigger agrees_with(a, prefix_at(*old(assumptions), k))]
                                        sat_clauses(a, cv) && agrees_with(
                                            a,
                                            prefix_at(*old(assumptions), k),
                                        ) && makes_true(a, neg_lit(d0[k].0));
                                    assert(agrees_with(a, t_here));
                                    assert(makes_true(a, flip));
                                    assert(sat_agreeing(cv, assumptions.trail()));
                                }
                            }
                            assert(frontier(*assumptions, decisions@, cv));
                        }
                        return true;
                    }
                    proof {
                        // the failed flip left the store's views intact
                        lemma_stack_same_views(s_roll, *assumptions, decisions@, vs, n);
                        assert forall|k: int|
                            0 <= k < decisions@.len() implies prefix_at(*assumptions, k)
                                == prefix_at(*old(assumptions), k) by {
                            assert(prefix_at(*assumptions, k) == prefix_at(s_roll, k));
                            assert(prefix_at(s_roll, k) == prefix_at(*old(assumptions), k));
                        }
                        // the flip was refuted: the covering branch, if
                        // any, lies strictly deeper in the stack
                        if sat_exists(cv) {
                            let k = choose|k: int|
                                #![auto]
                                0 <= k < j + 1 && open_branch(*old(assumptions), d0, cv, k);
                            if k == j {
                                let a = choose|a: spec_fn(Variable) -> bool|
                                    #![trigger agrees_with(a, prefix_at(*old(assumptions), k))]
                                    sat_clauses(a, cv) && agrees_with(
                                        a,
                                        prefix_at(*old(assumptions), k),
                                    ) && makes_true(a, neg_lit(d0[k].0));
                                assert(agrees_with(a, t_here));
                                assert(makes_true(a, flip));
                                assert(!sat_clauses(a, cv));
                                assert(false);
                            }
                            assert(open_branch(*old(assumptions), d0, cv, k));
                        }
                    }
                } else {
                    proof {
                        // a flipped level offers no further branch
                        if sat_exists(cv) {
                            let k = choose|k: int|
                                #![auto]
                                0 <= k < j + 1 && open_branch(*old(assumptions), d0, cv, k);
                            assert(d0[j].1);
                            assert(k < j);
                            assert(open_branch(*old(assumptions), d0, cv, k));
                        }
                    }
                }
            },
        }
    }
}

/// Decide whether a set of clauses is satisfiable, using the DPLL
/// algorithm: check for sat/unsat, propagate units, eliminate pure
/// literals, guess one variable at a time, and on a conflict backtrack
/// chronologically, flipping the most recent decision whose opposite
/// polarity was never tried.
///
/// A `Some` answer carries a trail under which every clause is satisfied;
/// a `None` answer really means no assignment at all satisfies every
/// clause — the contract states both.
pub fn satisfiable(clauses: &[Clause]) -> (r: Option<Vec<Literal>>)
    ensures
        match r {
            Some(t) => trail_consistent(t@) && forall|j: int|
                0 <= j < clauses@.len() ==> clause_satisfied(#[trigger] clauses@[j]@, t@),
            None => forall|a: spec_fn(Variable) -> bool|
                !sat_clauses(a, clauses_view(clauses@)),
        },
{
    let mut assumptions = AssumptionStore::new();

    let mut var_set: Vec<Variable> = Vec::new();
    let mut ci: usize = 0;
    while ci < clauses.len()
        invariant
            ci <= clauses@.len(),
            vars_sorted(var_set@),
            forall|j: int, i: int|
                0 <= j < ci && 0 <= i < clauses@[j]@.len() ==> var_set@.contains(
                    #[trigger] clauses@[j]@[i].variable,
                ),
        decreases clauses@.len() - ci,
    {
        let lits = clauses[ci].iter();
        let mut li: usize = 0;
        while li < lits.len()
            invariant
                li <= lits@.len(),
                lits@ == clauses@[ci as int]@,
                ci < clauses@.len(),
                vars_sorted(var_set@),
                forall|j: int, i: int|
                    0 <= j < ci && 0 <= i < clauses@[j]@.len() ==> var_set@.contains(
                        #[trigger] clauses@[j]@[i].variable,
                    ),
                forall|i: int|
                    0 <= i < li ==> var_set@.contains(#[trigger] clauses@[ci as int]@[i].variable),
            decreases lits@.len() - li,
        {
            insert_var(&mut var_set, lits[li].variable);
            li = li + 1;
        }
        ci = ci + 1;
    }

    let mut decisions: Vec<(Literal, bool)> = Vec::new();
    let ghost cv = clauses_view(clauses@);
    let ghost vs = var_set@;
    let ghost n = vs.len();

    proof {
        assert forall|a: spec_fn(Variable) -> bool|
            sat_clauses(a, cv) implies agrees_with(a, assumptions.trail()) by {
            assert forall|v: Variable| #![trigger trail_value(assumptions.trail(), v)]
                trail_value(assumptions.trail(), v) == Assumption::Unknown by {}
        }
        if sat_exists(cv) {
            let a = choose|a: spec_fn(Variable) -> bool| sat_clauses(a, cv);
            assert(agrees_with(a, assumptions.trail()));
            assert(sat_agreeing(cv, assumptions.trail()));
        }
        lemma_unknown_count_le_len(vs, assumptions.trail());
        assert(stack_ok(assumptions, decisions@, vs, n));
    }

    loop
        invariant
            assumptions.wf(),
            vars_sorted(vs),
            covers_clauses(vs, clauses@),
            vs == var_set@,
            cv == clauses_view(clauses@),
            n == vs.len(),
            stack_ok(assumptions, decisions@, vs, n),
            frontier(assumptions, decisions@, cv),
            decisions@.len() <= n,
            branch_value(decisions@, n) <= exp2(n),
        ensures
            assumptions.wf(),
            forall|j: int|
                0 <= j < clauses@.len() ==> clause_satisfied(
                    #[trigger] clauses@[j]@,
                    assumptions.trail(),
                ),
        decreases exp2(n) - branch_value(decisions@, n), n + 1 - decisions@.len(),
    {
        proof {
            lemma_branch_value_bound(decisions@, n);
            lemma_exp2_pos((n - decisions@.len()) as nat);
        }
        // `assumptions` is a consistent set of literals.
        if all_satisfied(clauses, &assumptions) {
            break;
        }

        // An all-false clause: this branch is exhausted, so backtrack.
        if any_unsatisfiable(clauses, &assumptions) {
            proof {
                let jw = choose|jw: int|
                    0 <= jw < clauses@.len() && clause_unsatisfiable(
                        #[trigger] clauses@[jw]@,
                        assumptions.trail(),
                    );
                assert forall|a: spec_fn(Variable) -> bool|
                    sat_clauses(a, cv) implies !agrees_with(a, assumptions.trail()) by {
                    if agrees_with(a, assumptions.trail()) {
                        assert(assignment_satisfies(a, cv[jw]));
                        lemma_unsat_clause_semantics(a, cv[jw], assumptions.trail());
                    }
                }
                assert(!sat_agreeing(cv, assumptions.trail()));
            }
            if !backtrack(clauses, &mut assumptions, &mut decisions, Ghost(vs)) {
                proof {
                    assert forall|a: spec_fn(Variable) -> bool|
                        !sat_clauses(a, clauses_view(clauses@)) by {
                        if sat_clauses(a, cv) {
                            assert(sat_exists(cv));
                        }
                    }
                }
                return None;
            }
            proof {
                lemma_branch_value_bound(decisions@, n);
                lemma_exp2_pos((n - decisions@.len()) as nat);
            }
            continue;
        }

        // Choose a variable for the next guess.
        match get_next_variable(&var_set, &assumptions) {
            Some(next_lit) => {
                let ghost t_pre = assumptions.trail();
                let ghost d_pre = decisions@;

                let ghost s_pre = assumptions;
                if make_guess(next_lit, clauses, &mut assumptions) {
                    decisions.push((next_lit, false));
                    proof {
                        lemma_driver_push(
                            assumptions,
                            s_pre,
                            decisions@,
                            d_pre,
                            next_lit,
                            false,
                            vs,
                            n,
                        );
                        lemma_branch_value_push(d_pre, (next_lit, false), n);
                        if sat_exists(cv) {
                            if sat_agreeing(cv, t_pre) {
                                let a = choose|a: spec_fn(Variable) -> bool|
                                    #![trigger agrees_with(a, t_pre)]
                                    sat_clauses(a, cv) && agrees_with(a, t_pre);
                                if makes_true(a, next_lit) {
                                    assert(sat_agreeing(cv, assumptions.trail()));
                                } else {
                                    assert(makes_true(a, neg_lit(next_lit)));
                                    assert(prefix_at(assumptions, d_pre.len() as int) == t_pre);
                                    assert(open_branch(
                                        assumptions,
                                        decisions@,
                                        cv,
                                        d_pre.len() as int,
                                    ));
                                }
                            } else {
                                let k = choose|k: int|
                                    #![auto]
                                    0 <= k < d_pre.len() && open_branch(s_pre, d_pre, cv, k);
                                assert(decisions@[k] == d_pre[k]);
                                assert(prefix_at(assumptions, k) == prefix_at(s_pre, k));
                                assert(open_branch(assumptions, decisions@, cv, k));
                            }
                        }
                        assert(frontier(assumptions, decisions@, cv));
                    }
                } else {
                    let flip = next_lit.negate();
                    proof {
                        assert(flip == neg_lit(next_lit));
                    }
                    if make_guess(flip, clauses, &mut assumptions) {
                        decisions.push((flip, true));
                        proof {
                            lemma_driver_push(
                                assumptions,
                                s_pre,
                                decisions@,
                                d_pre,
                                flip,
                                true,
                                vs,
                                n,
                            );
                            lemma_branch_value_push(d_pre, (flip, true), n);
                            lemma_exp2_pos((n - d_pre.len() - 1) as nat);
                            if sat_exists(cv) {
                                if sat_agreeing(cv, t_pre) {
                                    let a = choose|a: spec_fn(Variable) -> bool|
                                        #![trigger agrees_with(a, t_pre)]
                                        sat_clauses(a, cv) && agrees_with(a, t_pre);
                                    if makes_true(a, next_lit) {
                                        assert(!sat_clauses(a, cv));
                                        assert(false);
                                    } else {
                                        assert(makes_true(a, flip));
                                        assert(sat_agreeing(cv, assumptions.trail()));
                                    }
                                } else {
                                    let k = choose|k: int|
                                        #![auto]
                                        0 <= k < d_pre.len() && open_branch(s_pre, d_pre, cv, k);
                                    assert(decisions@[k] == d_pre[k]);
                                    assert(prefix_at(assumptions, k) == prefix_at(s_pre, k));
                                    assert(open_branch(assumptions, decisions@, cv, k));
                                }
                            }
                            assert(frontier(assumptions, decisions@, cv));
                        }
                    } else {
                        proof {
                            // both polarities refuted: nothing satisfying
                            // agrees with this trail
                            assert forall|a: spec_fn(Variable) -> bool|
                                sat_clauses(a, cv) implies !agrees_with(
                                a,
                                assumptions.trail(),
                            ) by {
                                if agrees_with(a, assumptions.trail()) {
                                    if makes_true(a, next_lit) {
                                    } else {
                                        assert(makes_true(a, flip));
                                    }
                                }
                            }
                            assert(!sat_agreeing(cv, assumptions.trail()));
                            // both failed guesses left only the store's
                            // views intact; the invariants depend on
                            // nothing else
                            lemma_same_views(s_pre, assumptions, decisions@, vs, n, cv);
                        }
                        if !backtrack(clauses, &mut assumptions, &mut decisions, Ghost(vs)) {
                            proof {
                                assert forall|a: spec_fn(Variable) -> bool|
                                    !sat_clauses(a, clauses_view(clauses@)) by {
                                    if sat_clauses(a, cv) {
                                        assert(sat_exists(cv));
                                    }
                                }
                            }
                            return None;
                        }
                    }
                }
                proof {
                    lemma_branch_value_bound(decisions@, n);
                    lemma_exp2_pos((n - decisions@.len()) as nat);
                }
            },
            None => {
                // Every variable is assigned, yet some clause is neither
                // satisfied nor all-false — impossible, since all of its
                // literals are assigned.
                proof {
                    let t = assumptions.trail();
                    let j = choose|j: int|
                        0 <= j < clauses@.len() && !clause_satisfied(clauses@[j]@, t);
                    assert(!clause_unsatisfiable(clauses@[j]@, t));
                    let i = choose|i: int|
                        0 <= i < clauses@[j]@.len() && lit_value(t, clauses@[j]@[i])
                            != Assumption::Assume(false);
                    let l = clauses@[j]@[i];
                    assert(lit_value(t, l) != Assumption::Assume(true));
                    assert(trail_value(t, l.variable) == Assumption::Unknown);
                    assert(vs.contains(l.variable));
                    let k = choose|k: int| 0 <= k < vs.len() && vs[k] == l.variable;
                    assert(false);
                }
                break;
            },
        }
    }

    return Some(assumptions.get_solution());
}

/// Committing a fresh decision keeps the stack well-formed: the new level
/// opens at the old trail, binds a previously-unknown candidate, and every
/// older level is untouched.
proof fn lemma_driver_push(
    s: AssumptionStore,
    s_pre: AssumptionStore,
    d: Seq<(Literal, bool)>,
    d_pre: Seq<(Literal, bool)>,
    l: Literal,
    flag: bool,
    vs: Seq<Variable>,
    n: nat,
)
    requires
        s.wf(),
        s_pre.wf(),
        stack_ok(s_pre, d_pre, vs, n),
        d == d_pre.push((l, flag)),
        s.bounds().len() == s_pre.bounds().len() + 1,
        s.bounds().drop_last() == s_pre.bounds(),
        s.bounds().last() as nat == s_pre.trail().len(),
        s.trail().len() >= s_pre.trail().len(),
        s.trail().take(s_pre.trail().len() as int) == s_pre.trail(),
        lit_value(s.trail(), l) == Assumption::Assume(true),
        trail_value(s_pre.trail(), l.variable) == Assumption::Unknown,
        vs.contains(l.variable),
    ensures
        stack_ok(s, d, vs, n),
        forall|k: int| 0 <= k < d_pre.len() ==> prefix_at(s, k) == prefix_at(s_pre, k),
        prefix_at(s, d_pre.len() as int) == s_pre.trail(),
{
    assert forall|k: int|
        0 <= k < d_pre.len() implies prefix_at(s, k) == prefix_at(s_pre, k) by {
        assert(s.bounds().drop_last()[k] == s.bounds()[k]);
        assert(s.bounds()[k] == s_pre.bounds()[k]);
        assert(s_pre.bounds()[k] as nat <= s_pre.trail().len());
        assert(s.trail().take(s_pre.bounds()[k] as int) =~= s_pre.trail().take(
            s_pre.bounds()[k] as int,
        ));
    }
    assert(prefix_at(s, d_pre.len() as int) =~= s_pre.trail());
    assert forall|k: int|
        0 <= k < d.len() implies trail_value(prefix_at(s, k), (#[trigger] d[k]).0.variable)
            == Assumption::Unknown by {
        if k < d_pre.len() {
            assert(d[k] == d_pre[k]);
        } else {
            assert(d[k] == (l, flag));
        }
    }
    assert forall|k: int| 0 <= k < d.len() implies vs.contains((#[trigger] d[k]).0.variable) by {
        if k < d_pre.len() {
            assert(d[k] == d_pre[k]);
        } else {
            assert(d[k] == (l, flag));
        }
    }
    assert forall|k: int|
        0 <= k < d.len() implies k + unknown_count(vs, prefix_at(s, k)) <= n by {
        if k < d_pre.len() {
        } else {
            assert(prefix_at(s, k) == s_pre.trail());
        }
    }
    assert(trail_value(s.trail(), l.variable) == Assumption::Assume(l.polarity));
    lemma_count_shrinks(vs, s_pre.trail(), s.trail(), l.variable);
}

/// After a successful guess the chosen variable is newly bound and no
/// binding is ever lost, so the number of unknown candidates shrinks.
proof fn lemma_count_shrinks(vs: Seq<Variable>, t_pre: Seq<Literal>, t_new: Seq<Literal>, v: Variable)
    requires
        trail_consistent(t_new),
        t_pre.len() <= t_new.len(),
        t_new.take(t_pre.len() as int) == t_pre,
        vs.contains(v),
        trail_value(t_pre, v) == Assumption::Unknown,
        trail_value(t_new, v) != Assumption::Unknown,
    ensures
        unknown_count(vs, t_new) < unknown_count(vs, t_pre),
{
    assert forall|w: Variable|
        trail_value(t_new, w) == Assumption::Unknown implies trail_value(t_pre, w)
        == Assumption::Unknown by {
        if trail_value(t_pre, w) != Assumption::Unknown {
            lemma_trail_value_extend(t_pre, t_new, w);
        }
    }
    let k = choose|k: int| 0 <= k < vs.len() && vs[k] == v;
    lemma_unknown_count_lt(vs, t_pre, t_new, k);
}

} // verus!
