//! Pure-literal elimination.
//!
//! "If a propositional variable appears with only one polarity in the
//! formula, it's called `pure`, and it can always be assigned in a way to
//! make all clauses containing it true."

use vstd::prelude::*;
use crate::assumptions::{
    lemma_trail_value_extend, lemma_trail_value_extend_unknown, lemma_trail_value_push,
    lit_value, trail_consistent, trail_value, Assumption, AssumptionStore,
};
use crate::clause::{
    agrees_with, assignment_satisfies, clause_satisfied, sat_clauses, Clause,
};
use crate::literal::{Literal, Variable};
use crate::unit_propagation::clauses_view;

verus! {

/// A small lattice recording with which polarities a variable has been seen
/// so far.
#[derive(PartialEq, Eq, Structural, Debug, Clone, Copy)]
enum SeenVariable {
    Never,
    Only(bool),
    Both,
}

/// One lattice step: a fresh variable moves to `Only` its polarity, an
/// `Only` entry hit with the opposite polarity moves to `Both`, and `Both`
/// absorbs everything.
spec fn seen_step(s: SeenVariable, lit: Literal) -> SeenVariable {
    match s {
        SeenVariable::Never => SeenVariable::Only(lit.polarity),
        SeenVariable::Only(prev) => if prev != lit.polarity {
            SeenVariable::Both
        } else {
            s
        },
        SeenVariable::Both => SeenVariable::Both,
    }
}

impl SeenVariable {
    fn observe(&mut self, lit: Literal)
        ensures
            *final(self) == seen_step(*old(self), lit),
    {
        match *self {
            SeenVariable::Never => {
                *self = SeenVariable::Only(lit.polarity);
            },
            SeenVariable::Only(prev) => {
                if prev != lit.polarity {
                    *self = SeenVariable::Both;
                }
            },
            SeenVariable::Both => {},
        }
    }
}

/// Variable `v` has, strictly before position (`j`, `li`) of the clause
/// list, an unassigned occurrence with polarity `p` inside a clause that
/// the trail `t` does not satisfy.
pub open spec fn occ(
    cs: Seq<Seq<Literal>>,
    t: Seq<Literal>,
    v: Variable,
    p: bool,
    j: int,
    li: int,
) -> bool {
    exists|jj: int, ii: int|
        #![auto]
        0 <= jj < cs.len() && 0 <= ii < cs[jj].len() && (jj < j || (jj == j && ii < li))
            && !clause_satisfied(cs[jj], t) && cs[jj][ii].variable == v && cs[jj][ii].polarity
            == p && trail_value(t, v) == Assumption::Unknown
}

/// `v` is pure with polarity `p`: it has an unassigned occurrence with
/// polarity `p` in some unsatisfied clause, and none with the opposite
/// polarity.
pub open spec fn pure_literal(cs: Seq<Seq<Literal>>, t: Seq<Literal>, v: Variable, p: bool) -> bool {
    occ(cs, t, v, p, cs.len() as int, 0) && !occ(cs, t, v, !p, cs.len() as int, 0)
}

proof fn lemma_occ_step(cs: Seq<Seq<Literal>>, t: Seq<Literal>, v: Variable, p: bool, j: int, li: int)
    requires
        0 <= j < cs.len(),
        0 <= li < cs[j].len(),
    ensures
        occ(cs, t, v, p, j, li + 1) == (occ(cs, t, v, p, j, li) || (!clause_satisfied(cs[j], t)
            && cs[j][li].variable == v && cs[j][li].polarity == p && trail_value(t, v)
            == Assumption::Unknown)),
{
    if occ(cs, t, v, p, j, li) {
        assert(occ(cs, t, v, p, j, li + 1));
    }
    if !clause_satisfied(cs[j], t) && cs[j][li].variable == v && cs[j][li].polarity == p
        && trail_value(t, v) == Assumption::Unknown {
        assert(occ(cs, t, v, p, j, li + 1));
    }
    if occ(cs, t, v, p, j, li + 1) {
        let (jj, ii) = choose|jj: int, ii: int|
            #![auto]
            0 <= jj < cs.len() && 0 <= ii < cs[jj].len() && (jj < j || (jj == j && ii < li + 1))
                && !clause_satisfied(cs[jj], t) && cs[jj][ii].variable == v
                && cs[jj][ii].polarity == p && trail_value(t, v) == Assumption::Unknown;
        if jj == j && ii == li {
        } else {
            assert(occ(cs, t, v, p, j, li));
        }
    }
}

proof fn lemma_occ_next_clause(cs: Seq<Seq<Literal>>, t: Seq<Literal>, v: Variable, p: bool, j: int)
    requires
        0 <= j < cs.len(),
    ensures
        occ(cs, t, v, p, j + 1, 0) == occ(cs, t, v, p, j, cs[j].len() as int),
{
    if occ(cs, t, v, p, j + 1, 0) {
        let (jj, ii) = choose|jj: int, ii: int|
            #![auto]
            0 <= jj < cs.len() && 0 <= ii < cs[jj].len() && (jj < j + 1 || (jj == j + 1 && ii
                < 0)) && !clause_satisfied(cs[jj], t) && cs[jj][ii].variable == v
                && cs[jj][ii].polarity == p && trail_value(t, v) == Assumption::Unknown;
        assert(occ(cs, t, v, p, j, cs[j].len() as int));
    }
    if occ(cs, t, v, p, j, cs[j].len() as int) {
        assert(occ(cs, t, v, p, j + 1, 0));
    }
}

proof fn lemma_occ_skip_satisfied(cs: Seq<Seq<Literal>>, t: Seq<Literal>, v: Variable, p: bool, j: int)
    requires
        0 <= j < cs.len(),
        clause_satisfied(cs[j], t),
    ensures
        occ(cs, t, v, p, j + 1, 0) == occ(cs, t, v, p, j, 0),
{
    if occ(cs, t, v, p, j + 1, 0) {
        let (jj, ii) = choose|jj: int, ii: int|
            #![auto]
            0 <= jj < cs.len() && 0 <= ii < cs[jj].len() && (jj < j + 1 || (jj == j + 1 && ii
                < 0)) && !clause_satisfied(cs[jj], t) && cs[jj][ii].variable == v
                && cs[jj][ii].polarity == p && trail_value(t, v) == Assumption::Unknown;
        assert(jj != j);
        assert(occ(cs, t, v, p, j, 0));
    }
    if occ(cs, t, v, p, j, 0) {
        assert(occ(cs, t, v, p, j + 1, 0));
    }
}

/// The record for a variable: the first — under strict sorting, the only —
/// entry carrying it.
spec fn lookup(vi: Seq<(Variable, SeenVariable)>, v: Variable) -> Option<SeenVariable>
    decreases vi.len(),
{
    if vi.len() == 0 {
        None
    } else if vi[0].0 == v {
        Some(vi[0].1)
    } else {
        lookup(vi.drop_first(), v)
    }
}

proof fn lemma_lookup_at(vi: Seq<(Variable, SeenVariable)>, m: int)
    requires
        0 <= m < vi.len(),
        forall|i: int| 0 <= i < m ==> vi[i].0 != vi[m].0,
    ensures
        lookup(vi, vi[m].0) == Some(vi[m].1),
    decreases m,
{
    if m > 0 {
        assert forall|i: int| #![trigger vi.drop_first()[i]] 0 <= i < m - 1 implies vi.drop_first()[i].0
            != vi.drop_first()[m - 1].0 by {
            assert(vi.drop_first()[i] == vi[i + 1]);
        }
        lemma_lookup_at(vi.drop_first(), m - 1);
    }
}

proof fn lemma_lookup_absent(vi: Seq<(Variable, SeenVariable)>, v: Variable)
    requires
        forall|i: int| 0 <= i < vi.len() ==> vi[i].0 != v,
    ensures
        lookup(vi, v) is None,
    decreases vi.len(),
{
    if vi.len() > 0 {
        assert forall|i: int| #![trigger vi.drop_first()[i]] 0 <= i < vi.len() - 1 implies vi.drop_first()[i].0
            != v by {
            assert(vi.drop_first()[i] == vi[i + 1]);
        }
        lemma_lookup_absent(vi.drop_first(), v);
    }
}

proof fn lemma_lookup_same_vars(
    vi: Seq<(Variable, SeenVariable)>,
    vi2: Seq<(Variable, SeenVariable)>,
    w: Variable,
)
    requires
        vi.len() == vi2.len(),
        forall|i: int| 0 <= i < vi.len() ==> vi2[i].0 == vi[i].0,
        forall|i: int| 0 <= i < vi.len() && vi[i].0 == w ==> vi2[i].1 == vi[i].1,
    ensures
        lookup(vi2, w) == lookup(vi, w),
    decreases vi.len(),
{
    if vi.len() > 0 {
        if vi[0].0 == w {
        } else {
            assert forall|i: int| #![trigger vi2.drop_first()[i]] 0 <= i < vi.len() - 1 implies vi2.drop_first()[i].0
                == vi.drop_first()[i].0 by {
                assert(vi.drop_first()[i] == vi[i + 1] && vi2.drop_first()[i] == vi2[i + 1]);
            }
            assert forall|i: int|
                #![trigger vi.drop_first()[i]]
                0 <= i < vi.len() - 1 && vi.drop_first()[i].0 == w implies vi2.drop_first()[i].1
                == vi.drop_first()[i].1 by {
                assert(vi.drop_first()[i] == vi[i + 1] && vi2.drop_first()[i] == vi2[i + 1]);
            }
            lemma_lookup_same_vars(vi.drop_first(), vi2.drop_first(), w);
        }
    }
}

proof fn lemma_lookup_insert(
    vi: Seq<(Variable, SeenVariable)>,
    m: int,
    e: (Variable, SeenVariable),
    w: Variable,
)
    requires
        0 <= m <= vi.len(),
        e.0 != w,
    ensures
        lookup(vi.insert(m, e), w) == lookup(vi, w),
    decreases m,
{
    let vi2 = vi.insert(m, e);
    if m == 0 {
        assert(vi2[0] == e);
        assert(vi2.drop_first() =~= vi);
    } else {
        assert(vi2[0] == vi[0]);
        if vi[0].0 == w {
        } else {
            assert(vi2.drop_first() =~= vi.drop_first().insert(m - 1, e));
            lemma_lookup_insert(vi.drop_first(), m - 1, e, w);
        }
    }
}

proof fn lemma_lookup_witness(vi: Seq<(Variable, SeenVariable)>, v: Variable)
    requires
        lookup(vi, v) is Some,
    ensures
        exists|m: int|
            #![auto]
            0 <= m < vi.len() && vi[m].0 == v && vi[m].1 == lookup(vi, v)->Some_0,
    decreases vi.len(),
{
    if vi[0].0 == v {
        assert(vi[0].0 == v && vi[0].1 == lookup(vi, v)->Some_0);
    } else {
        lemma_lookup_witness(vi.drop_first(), v);
        let m = choose|m: int|
            #![auto]
            0 <= m < vi.drop_first().len() && vi.drop_first()[m].0 == v && vi.drop_first()[m].1
                == lookup(vi.drop_first(), v)->Some_0;
        assert(vi[m + 1].0 == v && vi[m + 1].1 == lookup(vi, v)->Some_0);
    }
}

/// The per-variable records are strictly ordered by variable identifier, so
/// every variable occurs at most once.
spec fn info_sorted(vi: Seq<(Variable, SeenVariable)>) -> bool {
    forall|i: int, j: int| 0 <= i < j < vi.len() ==> vi[i].0.0 < vi[j].0.0
}

/// Every recorded variable is unknown under the trail `t`.
spec fn info_unknown(vi: Seq<(Variable, SeenVariable)>, t: Seq<Literal>) -> bool {
    forall|i: int| 0 <= i < vi.len() ==> trail_value(t, vi[i].0) == Assumption::Unknown
}

/// Record one more unassigned occurrence of a literal's variable, keeping
/// the records sorted and unique: the variable's entry takes one lattice
/// step and every other entry stays as it was.
fn record_occurrence(
    var_info: &mut Vec<(Variable, SeenVariable)>,
    lit: Literal,
    Ghost(t): Ghost<Seq<Literal>>,
)
    requires
        info_sorted(old(var_info)@),
        info_unknown(old(var_info)@, t),
        lit_value(t, lit) == Assumption::Unknown,
    ensures
        info_sorted(final(var_info)@),
        info_unknown(final(var_info)@, t),
        lookup(final(var_info)@, lit.variable) == Some(
            seen_step(
                match lookup(old(var_info)@, lit.variable) {
                    None => SeenVariable::Never,
                    Some(s) => s,
                },
                lit,
            ),
        ),
        forall|w: Variable|
            w != lit.variable ==> lookup(final(var_info)@, w) == lookup(old(var_info)@, w),
{
    let mut m: usize = 0;
    while m < var_info.len() && var_info[m].0.0 < lit.variable.0
        invariant
            m <= var_info@.len(),
            forall|i: int| 0 <= i < m ==> var_info@[i].0.0 < lit.variable.0,
            info_sorted(var_info@),
            info_unknown(var_info@, t),
            var_info@ == old(var_info)@,
        decreases var_info@.len() - m,
    {
        m = m + 1;
    }
    let ghost vi0 = var_info@;
    if m < var_info.len() && var_info[m].0.0 == lit.variable.0 {
        let (v, seen) = var_info[m];
        let mut s = seen;
        s.observe(lit);
        var_info.remove(m);
        var_info.insert(m, (v, s));
        proof {
            assert(vi0[m as int].0 == lit.variable);
            assert(var_info@ =~= vi0.update(m as int, (v, s)));
            assert forall|i: int| 0 <= i < m implies vi0[i].0 != vi0[m as int].0 by {}
            lemma_lookup_at(vi0, m as int);
            assert forall|i: int| 0 <= i < m implies var_info@[i].0 != var_info@[m as int].0 by {
                assert(var_info@[i].0 == vi0[i].0);
            }
            assert(var_info@[m as int].0 == lit.variable);
            lemma_lookup_at(var_info@, m as int);
            assert forall|w: Variable| w != lit.variable implies lookup(var_info@, w) == lookup(
                vi0,
                w,
            ) by {
                lemma_lookup_same_vars(vi0, var_info@, w);
            }
            assert forall|i: int, j: int|
                0 <= i < j < var_info@.len() implies var_info@[i].0.0 < var_info@[j].0.0 by {
                assert(var_info@[i].0 == vi0[i].0 && var_info@[j].0 == vi0[j].0);
            }
            assert forall|i: int|
                0 <= i < var_info@.len() implies trail_value(t, var_info@[i].0)
                == Assumption::Unknown by {
                assert(var_info@[i].0 == vi0[i].0);
            }
        }
    } else {
        var_info.insert(m, (lit.variable, SeenVariable::Only(lit.polarity)));
        proof {
            assert(trail_value(t, lit.variable) != Assumption::Unknown ==> lit_value(t, lit)
                != Assumption::Unknown);
            assert forall|i: int| 0 <= i < vi0.len() implies vi0[i].0 != lit.variable by {
                if i >= m {
                    assert(vi0[m as int].0.0 <= vi0[i].0.0);
                }
            }
            lemma_lookup_absent(vi0, lit.variable);
            assert forall|i: int| 0 <= i < m implies var_info@[i].0 != var_info@[m as int].0 by {
                assert(var_info@[i].0 == vi0[i].0);
            }
            assert(var_info@[m as int] == (lit.variable, SeenVariable::Only(lit.polarity)));
            lemma_lookup_at(var_info@, m as int);
            assert forall|w: Variable| w != lit.variable implies lookup(var_info@, w) == lookup(
                vi0,
                w,
            ) by {
                lemma_lookup_insert(vi0, m as int, (lit.variable, SeenVariable::Only(lit.polarity)), w);
            }
            assert forall|i: int, j: int|
                0 <= i < j < var_info@.len() implies var_info@[i].0.0 < var_info@[j].0.0 by {
                if j < m {
                    assert(var_info@[i].0 == vi0[i].0 && var_info@[j].0 == vi0[j].0);
                } else if j == m {
                    assert(var_info@[i].0 == vi0[i].0);
                } else if i == m {
                    assert(var_info@[j].0 == vi0[j - 1].0);
                    assert(m < vi0.len() ==> vi0[m as int].0.0 > lit.variable.0);
                    assert(vi0[m as int].0.0 <= vi0[j - 1].0.0);
                } else if i < m {
                    assert(var_info@[i].0 == vi0[i].0 && var_info@[j].0 == vi0[j - 1].0);
                    assert(i <= j - 1);
                    if i < j - 1 {
                    } else {
                        assert(vi0[i].0.0 < lit.variable.0);
                        assert(m < vi0.len() ==> vi0[m as int].0.0 > lit.variable.0);
                    }
                } else {
                    assert(var_info@[i].0 == vi0[i - 1].0 && var_info@[j].0 == vi0[j - 1].0);
                }
            }
            assert forall|i: int|
                0 <= i < var_info@.len() implies trail_value(t, var_info@[i].0)
                == Assumption::Unknown by {
                if i < m {
                    assert(var_info@[i].0 == vi0[i].0);
                } else if i > m {
                    assert(var_info@[i].0 == vi0[i - 1].0);
                }
            }
        }
    }
}

/// The records agree with the occurrences seen strictly before position
/// (`j`, `li`): an absent variable has no unassigned occurrence yet, an
/// `Only(p)` one occurs with polarity `p` and never with the opposite one,
/// a `Both` one occurs with both, and `Never` never occurs at all.
spec fn info_matches(
    vi: Seq<(Variable, SeenVariable)>,
    cs: Seq<Seq<Literal>>,
    t: Seq<Literal>,
    j: int,
    li: int,
) -> bool {
    &&& forall|v: Variable, p: bool|
        #![trigger occ(cs, t, v, p, j, li)]
        lookup(vi, v) is None ==> !occ(cs, t, v, p, j, li)
    &&& forall|v: Variable, p: bool|
        #![trigger occ(cs, t, v, p, j, li)]
        lookup(vi, v) == Some(SeenVariable::Only(p)) ==> occ(cs, t, v, p, j, li)
    &&& forall|v: Variable, p: bool|
        #![trigger occ(cs, t, v, p, j, li)]
        lookup(vi, v) == Some(SeenVariable::Only(!p)) ==> !occ(cs, t, v, p, j, li)
    &&& forall|v: Variable, p: bool|
        #![trigger occ(cs, t, v, p, j, li)]
        lookup(vi, v) == Some(SeenVariable::Both) ==> occ(cs, t, v, p, j, li)
    &&& forall|v: Variable| #![trigger lookup(vi, v)] lookup(vi, v) != Some(SeenVariable::Never)
}

/// Passing over an already-assigned literal changes no occurrence record.
proof fn lemma_info_skip_lit(
    vi: Seq<(Variable, SeenVariable)>,
    cs: Seq<Seq<Literal>>,
    t: Seq<Literal>,
    j: int,
    li: int,
    li1: int,
)
    requires
        0 <= j < cs.len(),
        0 <= li < cs[j].len(),
        li1 == li + 1,
        trail_value(t, cs[j][li].variable) != Assumption::Unknown,
        info_matches(vi, cs, t, j, li),
    ensures
        info_matches(vi, cs, t, j, li1),
{
    assert forall|v: Variable, p: bool| #![trigger occ(cs, t, v, p, j, li1)]
        occ(cs, t, v, p, j, li1) == occ(cs, t, v, p, j, li) by {
        lemma_occ_step(cs, t, v, p, j, li);
    }
}

/// Recording one unassigned occurrence keeps the records faithful: the
/// literal's variable takes one lattice step, everything else is untouched.
proof fn lemma_info_record_lit(
    vi_pre: Seq<(Variable, SeenVariable)>,
    vi: Seq<(Variable, SeenVariable)>,
    cs: Seq<Seq<Literal>>,
    t: Seq<Literal>,
    j: int,
    li: int,
    li1: int,
    l: Literal,
)
    requires
        0 <= j < cs.len(),
        0 <= li < cs[j].len(),
        li1 == li + 1,
        cs[j][li] == l,
        !clause_satisfied(cs[j], t),
        trail_value(t, l.variable) == Assumption::Unknown,
        info_matches(vi_pre, cs, t, j, li),
        lookup(vi, l.variable) == Some(
            seen_step(
                match lookup(vi_pre, l.variable) {
                    None => SeenVariable::Never,
                    Some(s) => s,
                },
                l,
            ),
        ),
        forall|w: Variable| w != l.variable ==> lookup(vi, w) == lookup(vi_pre, w),
    ensures
        info_matches(vi, cs, t, j, li1),
{
    assert forall|v: Variable, p: bool| #![trigger occ(cs, t, v, p, j, li1)]
        occ(cs, t, v, p, j, li1) == (occ(cs, t, v, p, j, li) || (v == l.variable && p
            == l.polarity)) by {
        lemma_occ_step(cs, t, v, p, j, li);
        assert(cs[j][li] == l);
        if v == l.variable && p == l.polarity {
            assert(!clause_satisfied(cs[j], t) && cs[j][li].variable == v && cs[j][li].polarity
                == p && trail_value(t, v) == Assumption::Unknown);
        }
    }
    assert forall|v: Variable, p: bool|
        #![trigger occ(cs, t, v, p, j, li1)]
        lookup(vi, v) is None implies !occ(cs, t, v, p, j, li1) by {
        lemma_occ_step(cs, t, v, p, j, li);
        assert(v != l.variable);
    }
    assert forall|v: Variable, p: bool|
        #![trigger occ(cs, t, v, p, j, li1)]
        lookup(vi, v) == Some(SeenVariable::Only(p)) implies occ(cs, t, v, p, j, li1) by {
        lemma_occ_step(cs, t, v, p, j, li);
        if v == l.variable {
            assert(lookup(vi_pre, v) != Some(SeenVariable::Never));
            match lookup(vi_pre, v) {
                None => {
                    assert(p == l.polarity);
                },
                Some(s) => {
                    assert(s == SeenVariable::Only(p));
                    assert(occ(cs, t, v, p, j, li));
                },
            }
        }
    }
    assert forall|v: Variable, p: bool|
        #![trigger occ(cs, t, v, p, j, li1)]
        lookup(vi, v) == Some(SeenVariable::Only(!p)) implies !occ(cs, t, v, p, j, li1) by {
        lemma_occ_step(cs, t, v, p, j, li);
        if v == l.variable {
            assert(lookup(vi_pre, v) != Some(SeenVariable::Never));
            match lookup(vi_pre, v) {
                None => {
                    assert(!p == l.polarity);
                    assert(!occ(cs, t, v, p, j, li));
                },
                Some(s) => {
                    assert(s == SeenVariable::Only(!p));
                    assert(!p == l.polarity);
                    assert(!occ(cs, t, v, p, j, li));
                },
            }
        } else {
            assert(lookup(vi_pre, v) == Some(SeenVariable::Only(!p)));
            assert(!occ(cs, t, v, p, j, li));
        }
    }
    assert forall|v: Variable, p: bool|
        #![trigger occ(cs, t, v, p, j, li1)]
        lookup(vi, v) == Some(SeenVariable::Both) implies occ(cs, t, v, p, j, li1) by {
        lemma_occ_step(cs, t, v, p, j, li);
        if v == l.variable {
            assert(lookup(vi_pre, v) != Some(SeenVariable::Never));
            match lookup(vi_pre, v) {
                None => {
                    assert(lookup(vi, v) != Some(SeenVariable::Both));
                },
                Some(s) => {
                    if s == SeenVariable::Both {
                        assert(occ(cs, t, v, p, j, li));
                    } else {
                        let q = s->Only_0;
                        if seen_step(s, l) == SeenVariable::Both {
                            assert(q != l.polarity);
                            if p == q {
                                assert(occ(cs, t, v, p, j, li));
                            } else {
                                assert(p == l.polarity);
                            }
                        }
                    }
                },
            }
        }
    }
}

/// Occurrences are unchanged by a clause-boundary move, whether the clause
/// was scanned to its end or skipped as satisfied.
proof fn lemma_occ_transfer(
    cs: Seq<Seq<Literal>>,
    t: Seq<Literal>,
    v: Variable,
    p: bool,
    j: int,
    li: int,
)
    requires
        0 <= j < cs.len(),
        clause_satisfied(cs[j], t) ==> li == 0,
        !clause_satisfied(cs[j], t) ==> li == cs[j].len(),
    ensures
        occ(cs, t, v, p, j + 1, 0) == occ(cs, t, v, p, j, li),
{
    if clause_satisfied(cs[j], t) {
        lemma_occ_skip_satisfied(cs, t, v, p, j);
    } else {
        lemma_occ_next_clause(cs, t, v, p, j);
    }
}

/// Moving to the next clause — scanned to its end, or skipped because it is
/// satisfied — changes no occurrence record.
proof fn lemma_info_next_clause(
    vi: Seq<(Variable, SeenVariable)>,
    cs: Seq<Seq<Literal>>,
    t: Seq<Literal>,
    j: int,
    li: int,
    j1: int,
)
    requires
        0 <= j < cs.len(),
        j1 == j + 1,
        clause_satisfied(cs[j], t) ==> li == 0,
        !clause_satisfied(cs[j], t) ==> li == cs[j].len(),
        info_matches(vi, cs, t, j, li),
    ensures
        info_matches(vi, cs, t, j1, 0),
{
    assert forall|v: Variable, p: bool| #![trigger occ(cs, t, v, p, j1, 0)]
        occ(cs, t, v, p, j1, 0) == occ(cs, t, v, p, j, li) by {
        lemma_occ_transfer(cs, t, v, p, j, li);
    }
}

/// Scan the clauses not yet satisfied and add an assumption for every pure
/// literal: a variable whose unassigned occurrences all share one polarity.
/// The pass only ever binds variables that were unknown, so it can never
/// produce a conflict — the internal success check is proved, not asserted
/// at run time.
pub fn eliminate(clauses: &[Clause], assumptions: &mut AssumptionStore)
    requires
        old(assumptions).wf(),
    ensures
        final(assumptions).wf(),
        final(assumptions).bounds() == old(assumptions).bounds(),
        final(assumptions).trail().len() >= old(assumptions).trail().len(),
        final(assumptions).trail().take(old(assumptions).trail().len() as int) == old(
            assumptions,
        ).trail(),
        // every pure variable comes out bound to its single polarity ...
        forall|v: Variable, p: bool|
            pure_literal(clauses_view(clauses@), old(assumptions).trail(), v, p)
                ==> trail_value(final(assumptions).trail(), v) == Assumption::Assume(p),
        // ... and nothing but pure literals is added
        forall|i: int|
            old(assumptions).trail().len() <= i < final(assumptions).trail().len()
                ==> pure_literal(
                clauses_view(clauses@),
                old(assumptions).trail(),
                final(assumptions).trail()[i].variable,
                final(assumptions).trail()[i].polarity,
            ),
        // ... in strictly ascending variable order, so each at most once
        forall|i1: int, i2: int|
            old(assumptions).trail().len() <= i1 < i2 < final(assumptions).trail().len()
                ==> final(assumptions).trail()[i1].variable.0
                < final(assumptions).trail()[i2].variable.0,
{
    let ghost t0 = assumptions.trail();
    let ghost b0 = assumptions.bounds();
    let ghost cv = clauses_view(clauses@);
    let mut var_info: Vec<(Variable, SeenVariable)> = Vec::new();

    proof {
        assert forall|v: Variable, p: bool| #![trigger occ(cv, t0, v, p, 0, 0)]
            !occ(cv, t0, v, p, 0, 0) by {}
        assert forall|v: Variable| #![trigger lookup(var_info@, v)]
            lookup(var_info@, v) is None by {}
    }
    let mut ci: usize = 0;
    while ci < clauses.len()
        invariant
            assumptions.wf(),
            t0 == old(assumptions).trail(),
            b0 == old(assumptions).bounds(),
            assumptions.trail() == t0,
            assumptions.bounds() == b0,
            ci <= clauses@.len(),
            cv == clauses_view(clauses@),
            info_sorted(var_info@),
            info_unknown(var_info@, t0),
            info_matches(var_info@, cv, t0, ci as int, 0),
        decreases clauses@.len() - ci,
    {
        let cls = &clauses[ci];
        proof {
            assert(cv[ci as int] == cls@);
        }
        // A clause that is already satisfied needs no examination.
        if !cls.is_satisfied(assumptions) {
            let lits = cls.iter();
            let mut li: usize = 0;
            while li < lits.len()
                invariant
                    assumptions.wf(),
                    t0 == old(assumptions).trail(),
                    assumptions.trail() == t0,
                    li <= lits@.len(),
                    ci < clauses@.len(),
                    cv == clauses_view(clauses@),
                    lits@ == cv[ci as int],
                    !clause_satisfied(cv[ci as int], t0),
                    info_sorted(var_info@),
                    info_unknown(var_info@, t0),
                    info_matches(var_info@, cv, t0, ci as int, li as int),
                decreases lits@.len() - li,
            {
                let l = lits[li];
                // Only unresolved literals matter here.
                if assumptions.get_lit(l) == Assumption::Unknown {
                    let ghost vi_pre = var_info@;
                    record_occurrence(&mut var_info, l, Ghost(t0));
                    proof {
                        lemma_info_record_lit(
                            vi_pre,
                            var_info@,
                            cv,
                            t0,
                            ci as int,
                            li as int,
                            li + 1,
                            l,
                        );
                    }
                } else {
                    proof {
                        lemma_info_skip_lit(var_info@, cv, t0, ci as int, li as int, li + 1);
                    }
                }
                li = li + 1;
            }
            proof {
                lemma_info_next_clause(
                    var_info@,
                    cv,
                    t0,
                    ci as int,
                    cv[ci as int].len() as int,
                    ci + 1,
                );
            }
        } else {
            proof {
                lemma_info_next_clause(var_info@, cv, t0, ci as int, 0, ci + 1);
            }
        }
        ci = ci + 1;
    }

    // Every `Only` entry is a pure variable: bind it to its single polarity.
    // Distinctness of the recorded variables keeps each of these bindings
    // conflict-free.
    let ghost n = clauses@.len() as int;
    let mut k: usize = 0;
    while k < var_info.len()
        invariant
            assumptions.wf(),
            t0 == old(assumptions).trail(),
            b0 == old(assumptions).bounds(),
            assumptions.bounds() == b0,
            assumptions.trail().len() >= t0.len(),
            assumptions.trail().take(t0.len() as int) == t0,
            k <= var_info@.len(),
            n == clauses@.len() as int,
            cv == clauses_view(clauses@),
            info_sorted(var_info@),
            info_unknown(var_info@, t0),
            info_matches(var_info@, cv, t0, n, 0),
            forall|m: int, p: bool|
                #![auto]
                0 <= m < k && var_info@[m].1 == SeenVariable::Only(p) ==> trail_value(
                    assumptions.trail(),
                    var_info@[m].0,
                ) == Assumption::Assume(p),
            forall|i: int|
                #![trigger assumptions.trail()[i]]
                t0.len() <= i < assumptions.trail().len() ==> exists|m: int|
                    #![auto]
                    0 <= m < k && assumptions.trail()[i].variable == var_info@[m].0
                        && var_info@[m].1 == SeenVariable::Only(
                        assumptions.trail()[i].polarity,
                    ),
            forall|i1: int, i2: int|
                t0.len() <= i1 < i2 < assumptions.trail().len()
                    ==> assumptions.trail()[i1].variable.0 < assumptions.trail()[i2].variable.0,
        decreases var_info@.len() - k,
    {
        let (v, seen) = var_info[k];
        if let SeenVariable::Only(polarity) = seen {
            proof {
                let t = assumptions.trail();
                assert forall|i: int| t0.len() <= i < t.len() implies t[i].variable != v by {
                    let m = choose|m: int|
                        #![auto]
                        0 <= m < k && t[i].variable == var_info@[m].0 && var_info@[m].1
                            == SeenVariable::Only(t[i].polarity);
                    assert(var_info@[m].0.0 < var_info@[k as int].0.0);
                }
                lemma_trail_value_extend_unknown(t0, t, v);
            }
            let ghost t_before = assumptions.trail();
            let ok = assumptions.assume_lit(Literal::new(v, polarity));
            // This cannot produce a conflict: the variable is still unknown.
            assert(ok);
            proof {
                assert(assumptions.trail().take(t0.len() as int) =~= t_before.take(
                    t0.len() as int,
                ));
                assert forall|m: int, p: bool|
                    #![auto]
                    0 <= m <= k && var_info@[m].1 == SeenVariable::Only(p) implies trail_value(
                    assumptions.trail(),
                    var_info@[m].0,
                ) == Assumption::Assume(p) by {
                    lemma_trail_value_push(
                        t_before,
                        Literal { variable: v, polarity },
                        var_info@[m].0,
                    );
                    if m < k {
                        assert(var_info@[m].0.0 < var_info@[k as int].0.0);
                        assert(trail_value(t_before, var_info@[m].0) == Assumption::Assume(p));
                    }
                }
                assert forall|i: int|
                    #![trigger assumptions.trail()[i]]
                    t0.len() <= i < assumptions.trail().len() implies exists|m: int|
                        #![auto]
                        0 <= m <= k && assumptions.trail()[i].variable == var_info@[m].0
                            && var_info@[m].1 == SeenVariable::Only(
                            assumptions.trail()[i].polarity,
                        ) by {
                    if i < t_before.len() {
                        assert(assumptions.trail()[i] == t_before[i]);
                        let m = choose|m: int|
                            #![auto]
                            0 <= m < k && t_before[i].variable == var_info@[m].0 && var_info@[m].1
                                == SeenVariable::Only(t_before[i].polarity);
                        assert(assumptions.trail()[i].variable == var_info@[m].0
                            && var_info@[m].1 == SeenVariable::Only(
                            assumptions.trail()[i].polarity,
                        ));
                    } else {
                        assert(assumptions.trail()[i] == (Literal { variable: v, polarity }));
                        assert(assumptions.trail()[i].variable == var_info@[k as int].0
                            && var_info@[k as int].1 == SeenVariable::Only(
                            assumptions.trail()[i].polarity,
                        ));
                    }
                }
                assert forall|i1: int, i2: int|
                    t0.len() <= i1 < i2 < assumptions.trail().len() implies assumptions.trail()[i1].variable.0
                    < assumptions.trail()[i2].variable.0 by {
                    if i2 < t_before.len() {
                        assert(assumptions.trail()[i1] == t_before[i1]);
                        assert(assumptions.trail()[i2] == t_before[i2]);
                    } else {
                        assert(assumptions.trail()[i1] == t_before[i1]);
                        assert(assumptions.trail()[i2] == (Literal { variable: v, polarity }));
                        let m = choose|m: int|
                            #![auto]
                            0 <= m < k && t_before[i1].variable == var_info@[m].0
                                && var_info@[m].1 == SeenVariable::Only(t_before[i1].polarity);
                        assert(var_info@[m].0.0 < var_info@[k as int].0.0);
                    }
                }
            }
        }
        k = k + 1;
    }
    proof {
        // Purity implies an `Only` record, which the pass has now bound.
        assert forall|v: Variable, p: bool|
            pure_literal(cv, t0, v, p) implies trail_value(assumptions.trail(), v)
            == Assumption::Assume(p) by {
            assert(occ(cv, t0, v, p, n, 0));
            assert(!occ(cv, t0, v, !p, n, 0));
            match lookup(var_info@, v) {
                None => {
                    assert(!occ(cv, t0, v, p, n, 0));
                },
                Some(s) => {
                    match s {
                        SeenVariable::Never => {
                            // `Never` entries are never created.
                            assert(false);
                        },
                        SeenVariable::Only(q) => {
                            if q != p {
                                assert(q == !p);
                                assert(!occ(cv, t0, v, !q, n, 0) ==> !occ(cv, t0, v, p, n, 0));
                                assert(occ(cv, t0, v, q, n, 0));
                                assert(false);
                            }
                            lemma_lookup_witness(var_info@, v);
                            let m = choose|m: int|
                                #![auto]
                                0 <= m < var_info@.len() && var_info@[m].0 == v && var_info@[m].1
                                    == s;
                        },
                        SeenVariable::Both => {
                            assert(occ(cv, t0, v, !p, n, 0));
                            assert(false);
                        },
                    }
                },
            }
        }
        // And the added entries are nothing but pure literals.
        assert forall|i: int|
            t0.len() <= i < assumptions.trail().len() implies pure_literal(
            cv,
            t0,
            assumptions.trail()[i].variable,
            assumptions.trail()[i].polarity,
        ) by {
            let m = choose|m: int|
                #![auto]
                0 <= m < var_info@.len() && assumptions.trail()[i].variable == var_info@[m].0
                    && var_info@[m].1 == SeenVariable::Only(assumptions.trail()[i].polarity);
            assert forall|jj: int| 0 <= jj < m implies var_info@[jj].0 != var_info@[m].0 by {}
            lemma_lookup_at(var_info@, m);
            let vv = assumptions.trail()[i].variable;
            let pp = assumptions.trail()[i].polarity;
            assert(lookup(var_info@, vv) == Some(SeenVariable::Only(pp)));
            assert(n == cv.len() as int);
            assert(occ(cv, t0, vv, pp, n, 0));
            assert(!occ(cv, t0, vv, !pp, n, 0));
        }
    }
}


/// The assignment that reads every bound variable off the trail `t2` and
/// falls back to `a` elsewhere.
pub open spec fn patched(a: spec_fn(Variable) -> bool, t2: Seq<Literal>) -> spec_fn(Variable) -> bool {
    |v: Variable|
        match trail_value(t2, v) {
            Assumption::Assume(p) => p,
            Assumption::Unknown => a(v),
        }
}

/// Binding pure literals preserves satisfiability: when a trail grows only
/// by literals that are pure with respect to it, a satisfying assignment
/// agreeing with the old trail yields one agreeing with the new trail —
/// flip the pure variables to their pure polarity and nothing breaks.
pub proof fn lemma_pure_extension_sat(
    a: spec_fn(Variable) -> bool,
    cs: Seq<Seq<Literal>>,
    t: Seq<Literal>,
    t2: Seq<Literal>,
)
    requires
        trail_consistent(t2),
        t.len() <= t2.len(),
        t2.take(t.len() as int) == t,
        forall|i: int|
            t.len() <= i < t2.len() ==> pure_literal(cs, t, t2[i].variable, t2[i].polarity),
        agrees_with(a, t),
        sat_clauses(a, cs),
    ensures
        agrees_with(patched(a, t2), t2),
        sat_clauses(patched(a, t2), cs),
{
    let a2 = patched(a, t2);
    assert forall|v: Variable| #![trigger trail_value(t2, v)]
        trail_value(t2, v) == Assumption::Unknown || trail_value(t2, v) == Assumption::Assume(
        a2(v),
    ) by {}
    assert(agrees_with(a2, t2));
    assert forall|j: int| 0 <= j < cs.len() implies assignment_satisfies(a2, #[trigger] cs[j]) by {
        assert(assignment_satisfies(a, cs[j]));
        let w = choose|w: int| 0 <= w < cs[j].len() && a(cs[j][w].variable) == cs[j][w].polarity;
        let lw = cs[j][w];
        match trail_value(t2, lw.variable) {
            Assumption::Unknown => {
                assert(a2(lw.variable) == lw.polarity);
                assert(assignment_satisfies(a2, cs[j]));
            },
            Assumption::Assume(q) => {
                if q == lw.polarity {
                    assert(a2(lw.variable) == lw.polarity);
                    assert(assignment_satisfies(a2, cs[j]));
                } else {
                    if trail_value(t, lw.variable) != Assumption::Unknown {
                        // Bound before the pass: `a` already agrees with it,
                        // contradicting the choice of witness.
                        lemma_trail_value_extend(t, t2, lw.variable);
                        assert(a(lw.variable) == q);
                        assert(false);
                    } else {
                        // Bound by a pure addition of the opposite polarity:
                        // find the added entry.
                        if forall|i: int|
                            t.len() <= i < t2.len() ==> (#[trigger] t2[i]).variable
                                != lw.variable {
                            lemma_trail_value_extend_unknown(t, t2, lw.variable);
                            assert(false);
                        }
                        let i = choose|i: int|
                            t.len() <= i < t2.len() && (#[trigger] t2[i]).variable
                                == lw.variable;
                        assert(trail_consistent(t2));
                        assert(t2[i].polarity == q) by {
                            crate::assumptions::lemma_trail_value_binding(t2, lw.variable, q);
                        }
                        assert(pure_literal(cs, t, lw.variable, q));
                        // `lw` would be an unassigned opposite occurrence, so
                        // its clause must already be satisfied under `t` ...
                        if !clause_satisfied(cs[j], t) {
                            assert(0 <= j < cs.len() && 0 <= w < cs[j].len() && (j
                                < cs.len() as int || (j == cs.len() as int && w < 0))
                                && !clause_satisfied(cs[j], t) && cs[j][w].variable
                                == lw.variable && cs[j][w].polarity == !q && trail_value(
                                t,
                                lw.variable,
                            ) == Assumption::Unknown);
                            assert(occ(cs, t, lw.variable, !q, cs.len() as int, 0));
                            assert(false);
                        }
                        // ... and a trail-satisfied clause stays satisfied:
                        // its true literal is bound in `t`, hence in `t2`.
                        let uu = choose|uu: int|
                            0 <= uu < cs[j].len() && lit_value(t, cs[j][uu])
                                == Assumption::Assume(true);
                        lemma_trail_value_extend(t, t2, cs[j][uu].variable);
                        assert(a2(cs[j][uu].variable) == cs[j][uu].polarity);
                        assert(assignment_satisfies(a2, cs[j]));
                    }
                }
            },
        }
    }
}

} // verus!
