//! Unit propagation: assume a seed literal, then repeatedly assume the
//! forced literal of any clause reduced to a single unknown literal, until
//! fixpoint or conflict.

use vstd::prelude::*;
use crate::assumptions::{
    Assumption, AssumptionStore, lemma_trail_value_extend, lemma_trail_value_push, lit_value,
    trail_consistent, trail_value,
};
use crate::clause::{
    agrees_with, assignment_satisfies, clause_unsatisfiable, has_unit, lemma_unit_forced,
    lemma_unsat_clause_semantics, makes_true, sat_clauses, unit_at, Clause,
};
use crate::literal::{Literal, Variable};

verus! {

/// The literal sequences of a sequence of clauses.
pub open spec fn clauses_view(clauses: Seq<Clause>) -> Seq<Seq<Literal>> {
    clauses.map_values(|c: Clause| c@)
}

/// The variables of all literals of all clauses, clause after clause.
pub open spec fn clauses_vars(cs: Seq<Seq<Literal>>) -> Seq<Variable>
    decreases cs.len(),
{
    if cs.len() == 0 {
        Seq::<Variable>::empty()
    } else {
        cs[0].map_values(|l: Literal| l.variable) + clauses_vars(cs.drop_first())
    }
}

/// How many variables of `vs` the trail `t` leaves unknown (counted with
/// multiplicity).
pub open spec fn unknown_count(vs: Seq<Variable>, t: Seq<Literal>) -> nat
    decreases vs.len(),
{
    if vs.len() == 0 {
        0
    } else {
        (if trail_value(t, vs[0]) == Assumption::Unknown {
            1nat
        } else {
            0nat
        }) + unknown_count(vs.drop_first(), t)
    }
}

/// Length of the maximal prefix of `q` whose literals are already true
/// under `t`.
pub open spec fn true_prefix(q: Seq<Literal>, t: Seq<Literal>) -> nat
    decreases q.len(),
{
    if q.len() == 0 {
        0
    } else if lit_value(t, q[0]) == Assumption::Assume(true) {
        1 + true_prefix(q.drop_first(), t)
    } else {
        0
    }
}

proof fn lemma_contains_concat_left(vs: Seq<Variable>, ws: Seq<Variable>, x: Variable)
    requires
        vs.contains(x),
    ensures
        (vs + ws).contains(x),
{
    let i = choose|i: int| 0 <= i < vs.len() && vs[i] == x;
    assert((vs + ws)[i] == x);
}

proof fn lemma_contains_concat_right(vs: Seq<Variable>, ws: Seq<Variable>, x: Variable)
    requires
        ws.contains(x),
    ensures
        (vs + ws).contains(x),
{
    let i = choose|i: int| 0 <= i < ws.len() && ws[i] == x;
    assert((vs + ws)[vs.len() + i] == x);
}

/// Every variable occurring in some clause occurs in `clauses_vars`.
proof fn lemma_clauses_vars_contains(cs: Seq<Seq<Literal>>, j: int, i: int)
    requires
        0 <= j < cs.len(),
        0 <= i < cs[j].len(),
    ensures
        clauses_vars(cs).contains(cs[j][i].variable),
    decreases cs.len(),
{
    let head = cs[0].map_values(|l: Literal| l.variable);
    if j == 0 {
        assert(head[i] == cs[0][i].variable);
        lemma_contains_concat_left(head, clauses_vars(cs.drop_first()), cs[j][i].variable);
    } else {
        lemma_clauses_vars_contains(cs.drop_first(), j - 1, i);
        assert(cs.drop_first()[j - 1] == cs[j]);
        lemma_contains_concat_right(head, clauses_vars(cs.drop_first()), cs[j][i].variable);
    }
}

/// Binding more variables never makes a variable unknown again, so the
/// unknown count cannot grow.
pub proof fn lemma_unknown_count_le(vs: Seq<Variable>, t1: Seq<Literal>, t2: Seq<Literal>)
    requires
        forall|v: Variable|
            trail_value(t2, v) == Assumption::Unknown ==> trail_value(t1, v)
                == Assumption::Unknown,
    ensures
        unknown_count(vs, t2) <= unknown_count(vs, t1),
    decreases vs.len(),
{
    if vs.len() > 0 {
        lemma_unknown_count_le(vs.drop_first(), t1, t2);
    }
}

/// Newly binding a listed variable strictly shrinks the unknown count.
pub proof fn lemma_unknown_count_lt(vs: Seq<Variable>, t1: Seq<Literal>, t2: Seq<Literal>, k: int)
    requires
        forall|v: Variable|
            trail_value(t2, v) == Assumption::Unknown ==> trail_value(t1, v)
                == Assumption::Unknown,
        0 <= k < vs.len(),
        trail_value(t1, vs[k]) == Assumption::Unknown,
        trail_value(t2, vs[k]) != Assumption::Unknown,
    ensures
        unknown_count(vs, t2) < unknown_count(vs, t1),
    decreases vs.len(),
{
    if k == 0 {
        lemma_unknown_count_le(vs.drop_first(), t1, t2);
    } else {
        assert(vs.drop_first()[k - 1] == vs[k]);
        lemma_unknown_count_lt(vs.drop_first(), t1, t2, k - 1);
    }
}

/// The unknown count never exceeds the number of candidates.
pub proof fn lemma_unknown_count_le_len(vs: Seq<Variable>, t: Seq<Literal>)
    ensures
        unknown_count(vs, t) <= vs.len(),
    decreases vs.len(),
{
    if vs.len() > 0 {
        lemma_unknown_count_le_len(vs.drop_first(), t);
    }
}

/// Two trails that value every variable alike have the same unknown count.
proof fn lemma_unknown_count_same(vs: Seq<Variable>, t1: Seq<Literal>, t2: Seq<Literal>)
    requires
        forall|v: Variable| trail_value(t1, v) == trail_value(t2, v),
    ensures
        unknown_count(vs, t2) == unknown_count(vs, t1),
    decreases vs.len(),
{
    if vs.len() > 0 {
        lemma_unknown_count_same(vs.drop_first(), t1, t2);
    }
}

proof fn lemma_true_prefix_concat(q1: Seq<Literal>, q2: Seq<Literal>, t: Seq<Literal>)
    ensures
        true_prefix(q1 + q2, t) == if true_prefix(q1, t) < q1.len() {
            true_prefix(q1, t)
        } else {
            q1.len() + true_prefix(q2, t)
        },
    decreases q1.len(),
{
    if q1.len() == 0 {
        assert(q1 + q2 =~= q2);
    } else {
        assert((q1 + q2)[0] == q1[0]);
        assert((q1 + q2).drop_first() =~= q1.drop_first() + q2);
        lemma_true_prefix_concat(q1.drop_first(), q2, t);
    }
}

/// Two trails that value every variable alike see the same true prefix.
proof fn lemma_true_prefix_same(q: Seq<Literal>, t1: Seq<Literal>, t2: Seq<Literal>)
    requires
        forall|v: Variable| trail_value(t1, v) == trail_value(t2, v),
    ensures
        true_prefix(q, t2) == true_prefix(q, t1),
    decreases q.len(),
{
    if q.len() > 0 {
        lemma_true_prefix_same(q.drop_first(), t1, t2);
    }
}

/// `u` is backed as a unit literal: some clause holds it while all of its
/// other literals are false under `t`.
pub open spec fn unit_backed(cs: Seq<Seq<Literal>>, t: Seq<Literal>, u: Literal) -> bool {
    exists|j: int, ii: int|
        #![auto]
        0 <= j < cs.len() && 0 <= ii < cs[j].len() && cs[j][ii] == u && (forall|oo: int|
            0 <= oo < cs[j].len() && oo != ii ==> lit_value(t, cs[j][oo])
                == Assumption::Assume(false))
}

/// A false literal stays false in every consistent extension of the trail.
proof fn lemma_lit_false_extend(t1: Seq<Literal>, t2: Seq<Literal>, l: Literal)
    requires
        trail_consistent(t2),
        t1.len() <= t2.len(),
        t2.take(t1.len() as int) == t1,
        lit_value(t1, l) == Assumption::Assume(false),
    ensures
        lit_value(t2, l) == Assumption::Assume(false),
{
    lemma_trail_value_extend(t1, t2, l.variable);
}

/// Unit backing survives every consistent extension of the trail.
proof fn lemma_unit_backed_extend(cs: Seq<Seq<Literal>>, t1: Seq<Literal>, t2: Seq<Literal>, u: Literal)
    requires
        trail_consistent(t2),
        t1.len() <= t2.len(),
        t2.take(t1.len() as int) == t1,
        unit_backed(cs, t1, u),
    ensures
        unit_backed(cs, t2, u),
{
    let (j, ii) = choose|j: int, ii: int|
        #![auto]
        0 <= j < cs.len() && 0 <= ii < cs[j].len() && cs[j][ii] == u && (forall|oo: int|
            0 <= oo < cs[j].len() && oo != ii ==> lit_value(t1, cs[j][oo])
                == Assumption::Assume(false));
    assert forall|oo: int| 0 <= oo < cs[j].len() && oo != ii implies lit_value(t2, cs[j][oo])
        == Assumption::Assume(false) by {
        lemma_lit_false_extend(t1, t2, cs[j][oo]);
    }
    assert(0 <= j < cs.len() && 0 <= ii < cs[j].len() && cs[j][ii] == u && (forall|oo: int|
        0 <= oo < cs[j].len() && oo != ii ==> lit_value(t2, cs[j][oo])
            == Assumption::Assume(false)));
}

/// A backed unit literal that turns out false leaves its clause all-false.
proof fn lemma_unit_backed_false_unsat(cs: Seq<Seq<Literal>>, t: Seq<Literal>, u: Literal)
    requires
        unit_backed(cs, t, u),
        lit_value(t, u) == Assumption::Assume(false),
    ensures
        exists|j: int| 0 <= j < cs.len() && clause_unsatisfiable(cs[j], t),
{
    let (j, ii) = choose|j: int, ii: int|
        #![auto]
        0 <= j < cs.len() && 0 <= ii < cs[j].len() && cs[j][ii] == u && (forall|oo: int|
            0 <= oo < cs[j].len() && oo != ii ==> lit_value(t, cs[j][oo])
                == Assumption::Assume(false));
    assert(clause_unsatisfiable(cs[j], t));
}

/// The assignments a propagation pass must respect: they agree with its
/// starting trail, make its seed literal true, and satisfy every clause.
spec fn compatible(
    a: spec_fn(Variable) -> bool,
    t0: Seq<Literal>,
    lit: Literal,
    cv: Seq<Seq<Literal>>,
) -> bool {
    agrees_with(a, t0) && makes_true(a, lit) && sat_clauses(a, cv)
}

/// Takes a set of clauses, a literal to propagate, and a set of assumptions;
/// updates the assumptions and returns `false` if a conflict was found. On
/// success the seed literal is true and no clause is all-false or a unit
/// under the final trail; on conflict the trail keeps whatever this pass
/// already added — rollback is the caller's responsibility.
pub fn propagate(clauses: &[Clause], lit: Literal, assumptions: &mut AssumptionStore) -> (r: bool)
    requires
        old(assumptions).wf(),
    ensures
        final(assumptions).wf(),
        final(assumptions).bounds() == old(assumptions).bounds(),
        final(assumptions).trail().len() >= old(assumptions).trail().len(),
        final(assumptions).trail().take(old(assumptions).trail().len() as int) == old(
            assumptions,
        ).trail(),
        r ==> lit_value(final(assumptions).trail(), lit) == Assumption::Assume(true),
        r ==> forall|j: int|
            0 <= j < clauses@.len() ==> !clause_unsatisfiable(
                clauses@[j]@,
                final(assumptions).trail(),
            ) && !has_unit(clauses@[j]@, final(assumptions).trail()),
        // a conflict is real: the seed itself is contradicted, or some
        // clause has become all-false
        !r ==> lit_value(final(assumptions).trail(), lit) == Assumption::Assume(false)
            || exists|j: int|
            0 <= j < clauses@.len() && clause_unsatisfiable(
                clauses@[j]@,
                final(assumptions).trail(),
            ),
        // the pass only commits forced literals: every satisfying
        // assignment that agrees with the old trail and makes the seed true
        // agrees with the whole new trail ...
        r ==> forall|a: spec_fn(Variable) -> bool|
            #![trigger agrees_with(a, old(assumptions).trail())]
            agrees_with(a, old(assumptions).trail()) && makes_true(a, lit) && sat_clauses(
                a,
                clauses_view(clauses@),
            ) ==> agrees_with(a, final(assumptions).trail()),
        // ... so a reported conflict rules such assignments out entirely
        !r ==> forall|a: spec_fn(Variable) -> bool|
            #![trigger agrees_with(a, old(assumptions).trail())]
            agrees_with(a, old(assumptions).trail()) && makes_true(a, lit) ==> !sat_clauses(
                a,
                clauses_view(clauses@),
            ),
{
    let ghost t0 = assumptions.trail();
    let ghost b0 = assumptions.bounds();
    let ghost cv = clauses_view(clauses@);
    let ghost vseq = seq![lit.variable] + clauses_vars(cv);

    let mut worklist: Vec<Literal> = Vec::new();
    worklist.push(lit);
    let mut qi: usize = 0;

    proof {
        assert(vseq[0] == lit.variable);
        assert(vseq.contains(lit.variable));
        assert forall|a: spec_fn(Variable) -> bool, i: int|
            #![trigger compatible(a, t0, lit, cv), worklist@[i]]
            compatible(a, t0, lit, cv) && 0 <= i < worklist@.len() implies makes_true(
            a,
            worklist@[i],
        ) by {
            assert(worklist@[i] == lit);
        }
    }

    while qi < worklist.len()
        invariant
            assumptions.wf(),
            t0 == old(assumptions).trail(),
            b0 == old(assumptions).bounds(),
            assumptions.bounds() == b0,
            assumptions.trail().len() >= t0.len(),
            assumptions.trail().take(t0.len() as int) == t0,
            qi <= worklist@.len(),
            worklist@.len() >= 1,
            worklist@[0] == lit,
            forall|i: int| 0 <= i < worklist@.len() ==> vseq.contains(worklist@[i].variable),
            qi > 0 ==> lit_value(assumptions.trail(), lit) == Assumption::Assume(true),
            forall|i: int|
                qi <= i < worklist@.len() && i != 0 ==> unit_backed(
                    cv,
                    assumptions.trail(),
                    #[trigger] worklist@[i],
                ),
            forall|a: spec_fn(Variable) -> bool|
                #![trigger compatible(a, t0, lit, cv)]
                compatible(a, t0, lit, cv) ==> agrees_with(a, assumptions.trail()),
            forall|a: spec_fn(Variable) -> bool, i: int|
                #![trigger compatible(a, t0, lit, cv), worklist@[i]]
                compatible(a, t0, lit, cv) && 0 <= i < worklist@.len() ==> makes_true(
                    a,
                    worklist@[i],
                ),
            qi == worklist@.len() ==> qi > 0 && forall|j: int|
                0 <= j < cv.len() ==> !clause_unsatisfiable(cv[j], assumptions.trail())
                    && !has_unit(cv[j], assumptions.trail()),
            cv == clauses_view(clauses@),
            vseq == seq![lit.variable] + clauses_vars(cv),
        decreases
                unknown_count(vseq, assumptions.trail()),
                true_prefix(worklist@.skip(qi as int), assumptions.trail()),
    {
        let ghost t_start = assumptions.trail();
        let ghost wq_start = worklist@;
        let ghost qi_start = qi as int;

        let current = worklist[qi];
        qi = qi + 1;
        proof {
            assert(wq_start.skip(qi_start)[0] == current);
        }

        if !assumptions.assume_lit(current) {
            // Assuming `current` generates a conflict: unsatisfiable.
            proof {
                assert(assumptions.trail().take(t0.len() as int) == t0);
                assert(lit_value(t_start, current) == Assumption::Assume(false));
                if qi_start == 0 {
                    assert(current == lit);
                } else {
                    assert(unit_backed(cv, t_start, current));
                    lemma_unit_backed_false_unsat(cv, t_start, current);
                    let j = choose|j: int|
                        0 <= j < cv.len() && clause_unsatisfiable(cv[j], t_start);
                    assert(clause_unsatisfiable(clauses@[j]@, assumptions.trail()));
                }
                // A compatible assignment would have to make `current` both
                // true (it is queued) and false (the trail binds it so).
                assert forall|a: spec_fn(Variable) -> bool|
                    #![trigger agrees_with(a, t0)]
                    agrees_with(a, t0) && makes_true(a, lit) implies !sat_clauses(a, cv) by {
                    if sat_clauses(a, cv) {
                        assert(compatible(a, t0, lit, cv));
                        assert(agrees_with(a, t_start));
                        assert(worklist@[qi_start] == current);
                        assert(makes_true(a, worklist@[qi_start]));
                        assert(trail_value(t_start, current.variable) == Assumption::Assume(
                            !current.polarity,
                        ));
                        assert(false);
                    }
                }
            }
            return false;
        }

        // trail is now t_start.push(current)
        proof {
            assert forall|v: Variable|
                trail_value(assumptions.trail(), v) == if current.variable == v {
                    Assumption::Assume(current.polarity)
                } else {
                    trail_value(t_start, v)
                } by {
                lemma_trail_value_push(t_start, current, v);
            }
            assert(assumptions.trail().take(t0.len() as int) =~= t_start.take(t0.len() as int));
            // the seed literal stays true once assumed
            if qi_start == 0 {
                assert(current == lit);
                assert(lit_value(assumptions.trail(), lit) == Assumption::Assume(true));
            } else {
                assert(lit_value(t_start, lit) == Assumption::Assume(true));
                assert(lit_value(assumptions.trail(), lit) == Assumption::Assume(true));
            }
        }
        let ghost t_now = assumptions.trail();
        let ghost pushed_start = worklist@.len();
        proof {
            assert(worklist@.take(pushed_start as int) =~= wq_start);
            assert(t_now.take(t_start.len() as int) =~= t_start);
            assert forall|i: int|
                qi <= i < worklist@.len() && i != 0 implies unit_backed(
                cv,
                t_now,
                #[trigger] worklist@[i],
            ) by {
                lemma_unit_backed_extend(cv, t_start, t_now, worklist@[i]);
            }
            // Compatible assignments agree with the pushed literal too: it
            // came off the worklist, where all literals are forced true.
            assert forall|a: spec_fn(Variable) -> bool|
                #![trigger compatible(a, t0, lit, cv)]
                compatible(a, t0, lit, cv) implies agrees_with(a, t_now) by {
                assert(agrees_with(a, t_start));
                assert(worklist@[qi_start] == current);
                assert(makes_true(a, worklist@[qi_start]));
                assert forall|v: Variable| #![trigger trail_value(t_now, v)]
                    trail_value(t_now, v) == Assumption::Unknown || trail_value(t_now, v)
                        == Assumption::Assume(a(v)) by {
                    if current.variable != v {
                        assert(trail_value(t_start, v) == trail_value(t_now, v));
                    } else {
                        assert(a(v) == current.polarity);
                    }
                }
                assert(agrees_with(a, t_now));
            }
        }

        let mut j: usize = 0;
        while j < clauses.len()
            invariant
                assumptions.wf(),
                t0 == old(assumptions).trail(),
                b0 == old(assumptions).bounds(),
                assumptions.bounds() == b0,
                assumptions.trail() == t_now,
                t_now.len() >= t0.len(),
                t_now.take(t0.len() as int) == t0,
                j <= clauses@.len(),
                cv == clauses_view(clauses@),
                vseq == seq![lit.variable] + clauses_vars(cv),
                worklist@.len() >= pushed_start,
                worklist@.take(pushed_start as int) == wq_start,
                pushed_start == wq_start.len(),
                forall|jj: int| 0 <= jj < j ==> !clause_unsatisfiable(cv[jj], t_now),
                worklist@.len() == pushed_start ==> forall|jj: int|
                    0 <= jj < j ==> !has_unit(cv[jj], t_now),
                forall|i: int|
                    pushed_start <= i < worklist@.len() ==> lit_value(t_now, worklist@[i])
                        == Assumption::Unknown && vseq.contains(worklist@[i].variable),
                forall|i: int|
                    qi <= i < worklist@.len() && i != 0 ==> unit_backed(
                        cv,
                        t_now,
                        #[trigger] worklist@[i],
                    ),
                forall|a: spec_fn(Variable) -> bool|
                    #![trigger compatible(a, t0, lit, cv)]
                    compatible(a, t0, lit, cv) ==> agrees_with(a, t_now),
                forall|a: spec_fn(Variable) -> bool, i: int|
                    #![trigger compatible(a, t0, lit, cv), worklist@[i]]
                    compatible(a, t0, lit, cv) && 0 <= i < worklist@.len() ==> makes_true(
                        a,
                        worklist@[i],
                    ),
            decreases clauses@.len() - j,
        {
            let cls = &clauses[j];
            proof {
                assert(cv[j as int] == cls@);
            }
            if cls.is_unsatisfiable(assumptions) {
                // `cls` is now all-false, so the whole system is unsatisfiable.
                proof {
                    assert(clause_unsatisfiable(clauses@[j as int]@, assumptions.trail()));
                    assert forall|a: spec_fn(Variable) -> bool|
                        #![trigger agrees_with(a, t0)]
                        agrees_with(a, t0) && makes_true(a, lit) implies !sat_clauses(a, cv) by {
                        if sat_clauses(a, cv) {
                            assert(compatible(a, t0, lit, cv));
                            assert(agrees_with(a, t_now));
                            assert(assignment_satisfies(a, cv[j as int]));
                            lemma_unsat_clause_semantics(a, cv[j as int], t_now);
                        }
                    }
                }
                return false;
            }
            match cls.get_unit(assumptions) {
                Some(u) => {
                    // A new unit clause: push its forced literal onto the
                    // worklist.
                    let ghost ui = choose|ii: int| unit_at(cls@, t_now, ii) && cls@[ii] == u;
                    let ghost wq_mid = worklist@;
                    proof {
                        lemma_clauses_vars_contains(cv, j as int, ui);
                        lemma_contains_concat_right(
                            seq![lit.variable],
                            clauses_vars(cv),
                            u.variable,
                        );
                        assert(worklist@.push(u).take(pushed_start as int) =~= worklist@.take(
                            pushed_start as int,
                        ));
                        assert(0 <= j < cv.len() && 0 <= ui < cv[j as int].len()
                            && cv[j as int][ui] == u && (forall|oo: int|
                            0 <= oo < cv[j as int].len() && oo != ui ==> lit_value(
                                t_now,
                                cv[j as int][oo],
                            ) == Assumption::Assume(false)));
                        assert(unit_backed(cv, t_now, u));
                    }
                    worklist.push(u);
                    proof {
                        // The forced literal is true under every compatible
                        // assignment.
                        assert forall|a: spec_fn(Variable) -> bool, i: int|
                            #![trigger compatible(a, t0, lit, cv), worklist@[i]]
                            compatible(a, t0, lit, cv) && 0 <= i < worklist@.len() implies makes_true(
                            a,
                            worklist@[i],
                        ) by {
                            if i < wq_mid.len() {
                                assert(worklist@[i] == wq_mid[i]);
                                assert(makes_true(a, wq_mid[i]));
                            } else {
                                assert(worklist@[i] == u);
                                assert(agrees_with(a, t_now));
                                assert(assignment_satisfies(a, cv[j as int]));
                                lemma_unit_forced(a, cls@, t_now, ui);
                            }
                        }
                    }
                },
                None => {},
            }
            j = j + 1;
        }

        proof {
            // All old worklist entries are still present unchanged.
            assert forall|i: int|
                0 <= i < worklist@.len() implies vseq.contains(
                #[trigger] worklist@[i].variable,
            ) by {
                if i < pushed_start {
                    assert(worklist@[i] == wq_start[i]);
                }
            }
            assert(worklist@[0] == wq_start[0]);

            // Termination: either `current` bound a fresh variable, or the
            // true prefix of the remaining worklist got shorter.
            let rest = wq_start.skip(qi_start + 1);
            let pushed = worklist@.skip(pushed_start as int);
            assert(worklist@ =~= wq_start + pushed);
            assert(worklist@.skip(qi_start + 1) =~= rest + pushed);
            if trail_value(t_start, current.variable) == Assumption::Unknown {
                let k = choose|k: int| 0 <= k < vseq.len() && vseq[k] == current.variable;
                lemma_unknown_count_lt(vseq, t_start, t_now, k);
            } else {
                // `current` was already assumed with this polarity: every
                // variable keeps its value, and the worklist head advances
                // past a true literal.
                assert(lit_value(t_start, current) == Assumption::Assume(true));
                assert forall|v: Variable|
                    trail_value(t_start, v) == trail_value(t_now, v) by {
                    lemma_trail_value_push(t_start, current, v);
                }
                lemma_unknown_count_same(vseq, t_start, t_now);
                lemma_true_prefix_same(wq_start.skip(qi_start), t_start, t_now);
                lemma_true_prefix_same(rest, t_start, t_now);
                assert(wq_start.skip(qi_start).drop_first() =~= rest);
                assert(true_prefix(wq_start.skip(qi_start), t_now) == 1 + true_prefix(
                    rest,
                    t_now,
                ));
                lemma_true_prefix_concat(rest, pushed, t_now);
                if true_prefix(rest, t_now) == rest.len() {
                    if pushed.len() > 0 {
                        assert(lit_value(t_now, pushed[0]) == Assumption::Unknown);
                        assert(true_prefix(pushed, t_now) == 0);
                    }
                }
            }
        }
    }
    proof {
        assert forall|j: int|
            0 <= j < clauses@.len() implies !clause_unsatisfiable(
            clauses@[j]@,
            assumptions.trail(),
        ) && !has_unit(clauses@[j]@, assumptions.trail()) by {
            assert(cv[j] == clauses@[j]@);
        }
        assert forall|a: spec_fn(Variable) -> bool|
            #![trigger agrees_with(a, t0)]
            agrees_with(a, t0) && makes_true(a, lit) && sat_clauses(a, cv) implies agrees_with(
            a,
            assumptions.trail(),
        ) by {
            assert(compatible(a, t0, lit, cv));
        }
    }
    // The worklist has drained without a conflict.
    true
}

} // verus!
