//! Clauses: disjunctions of literals, evaluated on demand against a trail.

use vstd::prelude::*;
use crate::assumptions::{Assumption, AssumptionStore, lit_value, trail_value};
use crate::literal::{Literal, Variable};

verus! {

/// A clause is a *disjunction* of literals, i.e. `x OR y OR z`. A clause may
/// hold a literal and its negation at once (a tautology); neither is ever
/// removed, because the empty clause and `x OR NOT x` are not equivalent.
#[derive(Debug)]
pub struct Clause(Vec<Literal>);

impl View for Clause {
    type V = Seq<Literal>;

    closed spec fn view(&self) -> Seq<Literal> {
        self.0@
    }
}

/// Some literal of `c` is true under the trail `t`.
pub open spec fn clause_satisfied(c: Seq<Literal>, t: Seq<Literal>) -> bool {
    exists|i: int| 0 <= i < c.len() && lit_value(t, c[i]) == Assumption::Assume(true)
}

/// Every literal of `c` is false under the trail `t`. The empty clause is
/// vacuously unsatisfiable.
pub open spec fn clause_unsatisfiable(c: Seq<Literal>, t: Seq<Literal>) -> bool {
    forall|i: int| 0 <= i < c.len() ==> lit_value(t, c[i]) == Assumption::Assume(false)
}

/// Position `i` holds the unit literal of `c` under `t`: it is the sole
/// unknown position and every other position is false.
pub open spec fn unit_at(c: Seq<Literal>, t: Seq<Literal>, i: int) -> bool {
    &&& 0 <= i < c.len()
    &&& lit_value(t, c[i]) == Assumption::Unknown
    &&& forall|j: int|
        0 <= j < c.len() && j != i ==> lit_value(t, c[j]) == Assumption::Assume(false)
}

/// `c` is a unit clause under `t`.
pub open spec fn has_unit(c: Seq<Literal>, t: Seq<Literal>) -> bool {
    exists|i: int| unit_at(c, t, i)
}

impl Clause {
    pub fn new() -> (r: Clause)
        ensures
            r@ =~= Seq::<Literal>::empty(),
    {
        Clause(Vec::new())
    }

    /// The literals of the clause, in insertion order.
    pub fn iter(&self) -> (r: &Vec<Literal>)
        ensures
            r@ == self@,
    {
        &self.0
    }

    /// Whether the clause already holds exactly this literal.
    fn contains_lit(&self, lit: Literal) -> (r: bool)
        ensures
            r == self@.contains(lit),
    {
        let mut k: usize = 0;
        while k < self.0.len()
            invariant
                k <= self.0.len(),
                forall|i: int| 0 <= i < k ==> self.0@[i] != lit,
            decreases self.0.len() - k,
        {
            if self.0[k] == lit {
                return true;
            }
            k = k + 1;
        }
        proof {
            assert(!self@.contains(lit));
        }
        false
    }

    /// Add `lit` to the clause. Adding a literal that is already present is
    /// a no-op; adding the negation of a present literal appends it, keeping
    /// the tautology. Clause contents never shrink.
    pub fn add_literal(&mut self, lit: Literal)
        ensures
            final(self)@ == if old(self)@.contains(lit) {
                old(self)@
            } else {
                old(self)@.push(lit)
            },
    {
        if !self.contains_lit(lit) {
            self.0.push(lit);
        }
    }

    /// Under the given `assumptions`, is there no possibility of satisfying
    /// this clause? Holds for the empty clause, and for clauses where all
    /// literals are false.
    pub fn is_unsatisfiable(&self, assumptions: &AssumptionStore) -> (r: bool)
        ensures
            r == clause_unsatisfiable(self@, assumptions.trail()),
    {
        let mut k: usize = 0;
        while k < self.0.len()
            invariant
                k <= self.0.len(),
                forall|i: int|
                    0 <= i < k ==> lit_value(assumptions.trail(), self@[i])
                        == Assumption::Assume(false),
            decreases self.0.len() - k,
        {
            if assumptions.get_lit(self.0[k]) != Assumption::Assume(false) {
                return false;
            }
            k = k + 1;
        }
        true
    }

    /// Under the given `assumptions`, is this clause satisfied?
    pub fn is_satisfied(&self, assumptions: &AssumptionStore) -> (r: bool)
        ensures
            r == clause_satisfied(self@, assumptions.trail()),
    {
        let mut k: usize = 0;
        while k < self.0.len()
            invariant
                k <= self.0.len(),
                forall|i: int|
                    0 <= i < k ==> lit_value(assumptions.trail(), self@[i])
                        != Assumption::Assume(true),
            decreases self.0.len() - k,
        {
            if assumptions.get_lit(self.0[k]) == Assumption::Assume(true) {
                return true;
            }
            k = k + 1;
        }
        false
    }

    /// Under the given `assumptions`, is this clause a unit clause? If so,
    /// return its unit literal: the sole unknown one, all others false.
    pub fn get_unit(&self, assumptions: &AssumptionStore) -> (r: Option<Literal>)
        ensures
            match r {
                Some(l) => exists|i: int|
                    unit_at(self@, assumptions.trail(), i) && self@[i] == l,
                None => !has_unit(self@, assumptions.trail()),
            },
    {
        let ghost t = assumptions.trail();
        let mut unit: Option<Literal> = None;
        let ghost mut uidx: int = 0;
        let mut k: usize = 0;
        while k < self.0.len()
            invariant
                k <= self.0.len(),
                match unit {
                    None => forall|j: int|
                        0 <= j < k ==> lit_value(t, self@[j]) == Assumption::Assume(false),
                    Some(l) => {
                        &&& 0 <= uidx < k
                        &&& self@[uidx] == l
                        &&& lit_value(t, self@[uidx]) == Assumption::Unknown
                        &&& forall|j: int|
                            0 <= j < k && j != uidx ==> lit_value(t, self@[j])
                                == Assumption::Assume(false)
                    },
                },
                t == assumptions.trail(),
            decreases self.0.len() - k,
        {
            match assumptions.get_lit(self.0[k]) {
                Assumption::Unknown => {
                    match unit {
                        // First unknown seen: keep track of it.
                        None => {
                            unit = Some(self.0[k]);
                            proof {
                                uidx = k as int;
                            }
                        },
                        // A second unknown: not a unit clause.
                        Some(_) => {
                            proof {
                                assert forall|i: int| !unit_at(self@, t, i) by {
                                    if unit_at(self@, t, i) {
                                        if i != uidx {
                                            assert(lit_value(t, self@[uidx])
                                                == Assumption::Assume(false));
                                        } else {
                                            assert(lit_value(t, self@[k as int])
                                                == Assumption::Assume(false));
                                        }
                                    }
                                }
                            }
                            return None;
                        },
                    }
                },
                // A literal known true: the clause is satisfied, not a unit.
                Assumption::Assume(true) => {
                    proof {
                        assert forall|i: int| !unit_at(self@, t, i) by {
                            if unit_at(self@, t, i) && i != k as int {
                                assert(lit_value(t, self@[k as int])
                                    == Assumption::Assume(false));
                            }
                        }
                    }
                    return None;
                },
                // A literal known false: keep scanning.
                Assumption::Assume(false) => {},
            }
            k = k + 1;
        }
        proof {
            if unit is None {
                assert forall|i: int| !unit_at(self@, t, i) by {}
            } else {
                assert(unit_at(self@, t, uidx));
            }
        }
        unit
    }
}

/// A total assignment of the variables satisfies a clause when some literal
/// agrees with it.
pub open spec fn assignment_satisfies(a: spec_fn(Variable) -> bool, c: Seq<Literal>) -> bool {
    exists|i: int| 0 <= i < c.len() && a(c[i].variable) == c[i].polarity
}

/// A total assignment agrees with a trail when it gives every bound
/// variable its trail polarity.
pub open spec fn agrees_with(a: spec_fn(Variable) -> bool, t: Seq<Literal>) -> bool {
    forall|v: Variable| (#[trigger] trail_value(t, v)) matches Assumption::Assume(p) ==> a(v) == p
}

/// The assignment makes the literal true.
pub open spec fn makes_true(a: spec_fn(Variable) -> bool, l: Literal) -> bool {
    a(l.variable) == l.polarity
}

/// The assignment satisfies every clause of the list.
pub open spec fn sat_clauses(a: spec_fn(Variable) -> bool, cs: Seq<Seq<Literal>>) -> bool {
    forall|j: int| 0 <= j < cs.len() ==> assignment_satisfies(a, #[trigger] cs[j])
}

/// Under a trail, a unit clause can keep an agreeing satisfying assignment
/// only through its unit literal: every other literal is already false.
pub proof fn lemma_unit_forced(
    a: spec_fn(Variable) -> bool,
    c: Seq<Literal>,
    t: Seq<Literal>,
    i: int,
)
    requires
        unit_at(c, t, i),
        agrees_with(a, t),
        assignment_satisfies(a, c),
    ensures
        makes_true(a, c[i]),
{
    let w = choose|w: int| 0 <= w < c.len() && a(c[w].variable) == c[w].polarity;
    if w != i {
        assert(lit_value(t, c[w]) == Assumption::Assume(false));
        assert(trail_value(t, c[w].variable) == Assumption::Assume(!c[w].polarity));
        assert(false);
    }
}

/// A clause that is all-false under a trail is falsified by every total
/// assignment agreeing with that trail: the conflicts the solver reports
/// are real.
pub proof fn lemma_unsat_clause_semantics(
    a: spec_fn(Variable) -> bool,
    c: Seq<Literal>,
    t: Seq<Literal>,
)
    requires
        clause_unsatisfiable(c, t),
        agrees_with(a, t),
    ensures
        !assignment_satisfies(a, c),
{
    assert forall|i: int| 0 <= i < c.len() implies a(c[i].variable) != c[i].polarity by {
        assert(lit_value(t, c[i]) == Assumption::Assume(false));
        assert(trail_value(t, c[i].variable) == Assumption::Assume(!c[i].polarity));
    }
}

/// Clause status laws: a satisfied clause is never simultaneously
/// unsatisfiable, a unit clause is neither satisfied nor unsatisfiable, and
/// the unit position is unique.
pub proof fn lemma_clause_status(c: Seq<Literal>, t: Seq<Literal>)
    ensures
        clause_satisfied(c, t) ==> !clause_unsatisfiable(c, t),
        forall|i: int| #[trigger]
            unit_at(c, t, i) ==> !clause_satisfied(c, t) && !clause_unsatisfiable(c, t),
        forall|i: int, j: int| #[trigger]
            unit_at(c, t, i) && #[trigger] unit_at(c, t, j) ==> i == j,
{
    assert forall|i: int| #[trigger]
        unit_at(c, t, i) implies !clause_satisfied(c, t) && !clause_unsatisfiable(c, t) by {
        if clause_satisfied(c, t) {
            let w = choose|w: int|
                0 <= w < c.len() && lit_value(t, c[w]) == Assumption::Assume(true);
            assert(w != i ==> lit_value(t, c[w]) == Assumption::Assume(false));
        }
        assert(lit_value(t, c[i]) != Assumption::Assume(false));
    }
    assert forall|i: int, j: int| #[trigger]
        unit_at(c, t, i) && #[trigger] unit_at(c, t, j) implies i == j by {
        if i != j {
            assert(lit_value(t, c[j]) == Assumption::Assume(false));
        }
    }
}

} // verus!
