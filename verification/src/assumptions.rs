//! The assumption trail: an ordered log of literal assumptions with
//! checkpoint/rollback.

use vstd::prelude::*;
use crate::literal::{Literal, Variable};

verus! {

/// The tri-state value of a variable or literal under a trail.
#[derive(PartialEq, Eq, Structural, Debug, Clone, Copy)]
pub enum Assumption {
    Unknown,
    Assume(bool),
}

/// The polarity most recently assumed for `v` in the trail `t`, or
/// `Unknown` when `t` never mentions `v`.
pub open spec fn trail_value(t: Seq<Literal>, v: Variable) -> Assumption
    decreases t.len(),
{
    if t.len() == 0 {
        Assumption::Unknown
    } else if t.last().variable == v {
        Assumption::Assume(t.last().polarity)
    } else {
        trail_value(t.drop_last(), v)
    }
}

/// The value of the literal `l` under the trail `t`: `Assume(true)` when the
/// trail binds its variable to its polarity, `Assume(false)` when it binds it
/// to the opposite polarity, `Unknown` otherwise.
pub open spec fn lit_value(t: Seq<Literal>, l: Literal) -> Assumption {
    match trail_value(t, l.variable) {
        Assumption::Unknown => Assumption::Unknown,
        Assumption::Assume(b) => Assumption::Assume(b == l.polarity),
    }
}

/// No two entries of `t` bind the same variable to opposite polarities.
pub open spec fn trail_consistent(t: Seq<Literal>) -> bool {
    forall|i: int, j: int|
        0 <= i < t.len() && 0 <= j < t.len() && t[i].variable == t[j].variable
            ==> t[i].polarity == t[j].polarity
}

/// A trail value is determined by the last entry: pushing a literal decides
/// the value of its own variable and leaves every other variable unchanged.
pub proof fn lemma_trail_value_push(t: Seq<Literal>, l: Literal, v: Variable)
    ensures
        trail_value(t.push(l), v) == if l.variable == v {
            Assumption::Assume(l.polarity)
        } else {
            trail_value(t, v)
        },
{
    assert(t.push(l).last() == l);
    assert(t.push(l).drop_last() =~= t);
}

/// A variable whose trail value is `Unknown` occurs in no entry at all.
pub proof fn lemma_trail_value_unknown(t: Seq<Literal>, v: Variable)
    requires
        trail_value(t, v) == Assumption::Unknown,
    ensures
        forall|i: int| 0 <= i < t.len() ==> t[i].variable != v,
    decreases t.len(),
{
    if t.len() > 0 {
        lemma_trail_value_unknown(t.drop_last(), v);
        assert forall|i: int| 0 <= i < t.len() implies t[i].variable != v by {
            if i < t.len() - 1 {
                assert(t.drop_last()[i] == t[i]);
            }
        }
    }
}

/// A variable whose trail value is `Assume(p)` occurs in some entry with
/// polarity `p`.
pub proof fn lemma_trail_value_witness(t: Seq<Literal>, v: Variable, p: bool)
    requires
        trail_value(t, v) == Assumption::Assume(p),
    ensures
        exists|i: int| 0 <= i < t.len() && t[i].variable == v && t[i].polarity == p,
    decreases t.len(),
{
    if t.last().variable == v {
        assert(t[t.len() - 1].variable == v && t[t.len() - 1].polarity == p);
    } else {
        lemma_trail_value_witness(t.drop_last(), v, p);
        let i = choose|i: int|
            0 <= i < t.len() - 1 && t.drop_last()[i].variable == v && t.drop_last()[i].polarity
                == p;
        assert(t[i].variable == v && t[i].polarity == p);
    }
}

/// In a consistent trail, every entry for `v` carries the trail value's
/// polarity.
pub proof fn lemma_trail_value_binding(t: Seq<Literal>, v: Variable, p: bool)
    requires
        trail_consistent(t),
        trail_value(t, v) == Assumption::Assume(p),
    ensures
        forall|i: int| 0 <= i < t.len() && t[i].variable == v ==> t[i].polarity == p,
{
    lemma_trail_value_witness(t, v, p);
}

/// Once a variable is bound, it stays bound to the same polarity in every
/// consistent extension of the trail.
pub proof fn lemma_trail_value_extend(t1: Seq<Literal>, t2: Seq<Literal>, v: Variable)
    requires
        trail_consistent(t2),
        t1.len() <= t2.len(),
        t2.take(t1.len() as int) == t1,
        trail_value(t1, v) != Assumption::Unknown,
    ensures
        trail_value(t2, v) == trail_value(t1, v),
{
    let p = trail_value(t1, v)->Assume_0;
    lemma_trail_value_witness(t1, v, p);
    let i = choose|i: int| 0 <= i < t1.len() && t1[i].variable == v && t1[i].polarity == p;
    assert(t2[i] == t1[i]);
    if trail_value(t2, v) == Assumption::Unknown {
        lemma_trail_value_unknown(t2, v);
        assert(false);
    }
    let q = trail_value(t2, v)->Assume_0;
    lemma_trail_value_binding(t2, v, q);
}

/// A variable stays unknown in any extension of the trail that never
/// mentions it.
pub proof fn lemma_trail_value_extend_unknown(t1: Seq<Literal>, t2: Seq<Literal>, v: Variable)
    requires
        t1.len() <= t2.len(),
        t2.take(t1.len() as int) == t1,
        trail_value(t1, v) == Assumption::Unknown,
        forall|i: int| t1.len() <= i < t2.len() ==> t2[i].variable != v,
    ensures
        trail_value(t2, v) == Assumption::Unknown,
    decreases t2.len(),
{
    if t2.len() == t1.len() {
        assert(t2 =~= t1);
    } else {
        assert(t2[t2.len() - 1].variable != v);
        assert(t2.drop_last().take(t1.len() as int) =~= t1);
        assert forall|i: int| t1.len() <= i < t2.len() - 1 implies t2.drop_last()[i].variable
            != v by {
            assert(t2.drop_last()[i] == t2[i]);
        }
        lemma_trail_value_extend_unknown(t1, t2.drop_last(), v);
    }
}

/// The ordered log of assumed literals, together with the stack of rollback
/// boundaries that marks where each inference context began.
pub struct AssumptionStore {
    assumptions: Vec<Literal>,
    rollback_boundaries: Vec<usize>,
}

impl AssumptionStore {
    /// The sequence of assumed literals, oldest first.
    pub closed spec fn trail(self) -> Seq<Literal> {
        self.assumptions@
    }

    /// The stack of rollback boundaries, each an index into the trail.
    pub closed spec fn bounds(self) -> Seq<usize> {
        self.rollback_boundaries@
    }

    /// Well-formedness: the trail is variable-consistent, and the boundary
    /// stack is non-decreasing with every entry within the trail.
    pub open spec fn wf(self) -> bool {
        &&& trail_consistent(self.trail())
        &&& forall|i: int| 0 <= i < self.bounds().len() ==> self.bounds()[i] <= self.trail().len()
        &&& forall|i: int, j: int|
            0 <= i <= j < self.bounds().len() ==> self.bounds()[i] <= self.bounds()[j]
    }

    pub fn new() -> (r: AssumptionStore)
        ensures
            r.wf(),
            r.trail() =~= Seq::<Literal>::empty(),
            r.bounds() =~= Seq::<usize>::empty(),
    {
        AssumptionStore { assumptions: Vec::new(), rollback_boundaries: Vec::new() }
    }

    /// The polarity most recently assumed for `var`, or `Unknown`.
    pub fn get_var(&self, var: Variable) -> (r: Assumption)
        ensures
            r == trail_value(self.trail(), var),
    {
        // Iterate newest to oldest: recent entries dominate lookup cost.
        let mut i: usize = self.assumptions.len();
        proof {
            assert(self.assumptions@.take(i as int) =~= self.assumptions@);
        }
        while i > 0
            invariant
                i <= self.assumptions.len(),
                trail_value(self.assumptions@, var) == trail_value(
                    self.assumptions@.take(i as int),
                    var,
                ),
            decreases i,
        {
            i = i - 1;
            let l = self.assumptions[i];
            proof {
                assert(self.assumptions@.take(i + 1).last() == self.assumptions@[i as int]);
                assert(self.assumptions@.take(i + 1).drop_last() =~= self.assumptions@.take(
                    i as int,
                ));
            }
            if l.variable == var {
                return Assumption::Assume(l.polarity);
            }
        }
        proof {
            assert(self.assumptions@.take(0) =~= Seq::<Literal>::empty());
        }
        Assumption::Unknown
    }

    /// The value of `lit` under the trail, respecting its polarity.
    pub fn get_lit(&self, lit: Literal) -> (r: Assumption)
        ensures
            r == lit_value(self.trail(), lit),
    {
        match self.get_var(lit.variable) {
            Assumption::Unknown => Assumption::Unknown,
            Assumption::Assume(b) => Assumption::Assume(b == lit.polarity),
        }
    }

    /// Record the assumption that `lit` is true. Returns `false` — leaving the store
    /// unchanged — exactly when the trail already binds the variable to the
    /// opposite polarity; otherwise appends `lit`.
    pub fn assume_lit(&mut self, lit: Literal) -> (r: bool)
        requires
            old(self).wf(),
        ensures
            final(self).wf(),
            final(self).bounds() == old(self).bounds(),
            r == (lit_value(old(self).trail(), lit) != Assumption::Assume(false)),
            r ==> final(self).trail() == old(self).trail().push(lit),
            !r ==> final(self).trail() == old(self).trail(),
    {
        if let Assumption::Assume(prev) = self.get_var(lit.variable) {
            if prev != lit.polarity {
                // This conflicts with a previous assumption.
                return false;
            }
        }
        proof {
            let t = self.assumptions@;
            let t2 = t.push(lit);
            match trail_value(t, lit.variable) {
                Assumption::Unknown => {
                    lemma_trail_value_unknown(t, lit.variable);
                },
                Assumption::Assume(p) => {
                    lemma_trail_value_binding(t, lit.variable, p);
                },
            }
            assert forall|i: int, j: int|
                0 <= i < t2.len() && 0 <= j < t2.len() && t2[i].variable
                    == t2[j].variable implies t2[i].polarity == t2[j].polarity by {
                if i < t.len() && j < t.len() {
                    assert(t2[i] == t[i] && t2[j] == t[j]);
                } else if i < t.len() {
                    assert(t2[i] == t[i] && t2[j] == lit);
                } else if j < t.len() {
                    assert(t2[i] == lit && t2[j] == t[j]);
                }
            }
        }
        self.assumptions.push(lit);
        proof {
            // The push changed only the trail, and consistently; the
            // boundary facts carry over entry by entry.
            assert(trail_consistent(self.assumptions@));
            assert(self.bounds() == old(self).bounds());
            assert(forall|i: int|
                0 <= i < self.bounds().len() ==> self.bounds()[i] <= self.trail().len());
            assert(forall|i: int, j: int|
                0 <= i <= j < self.bounds().len() ==> self.bounds()[i] <= self.bounds()[j]);
        }
        true
    }

    /// Open a new inference context: remember the current trail length as a
    /// rollback point.
    pub fn new_inference(&mut self)
        requires
            old(self).wf(),
        ensures
            final(self).wf(),
            final(self).trail() == old(self).trail(),
            final(self).bounds().len() == old(self).bounds().len() + 1,
            final(self).bounds().last() as nat == old(self).trail().len(),
            final(self).bounds().drop_last() == old(self).bounds(),
    {
        let n = self.assumptions.len();
        self.rollback_boundaries.push(n);
        proof {
            let b0 = old(self).bounds();
            let b2 = self.rollback_boundaries@;
            assert(b2.drop_last() =~= b0);
            assert forall|i: int, j: int| 0 <= i <= j < b2.len() implies b2[i] <= b2[j] by {
                if j < b2.len() - 1 {
                    assert(b2[i] == b0[i] && b2[j] == b0[j]);
                } else if i < b2.len() - 1 {
                    assert(b2[i] == b0[i] && b0[i] <= old(self).trail().len());
                }
            }
        }
    }

    /// Close the most recent inference context, discarding every assumption
    /// made since it was opened. The driver guarantees a matching
    /// `new_inference` for every rollback.
    pub fn rollback_inference(&mut self)
        requires
            old(self).wf(),
            old(self).bounds().len() > 0,
        ensures
            final(self).wf(),
            final(self).bounds() == old(self).bounds().drop_last(),
            final(self).trail() == old(self).trail().take(old(self).bounds().last() as int),
    {
        let idx = self.rollback_boundaries.pop().unwrap();
        self.assumptions.truncate(idx);
        proof {
            let t = self.assumptions@;
            let t0 = old(self).trail();
            assert forall|i: int, j: int|
                0 <= i < t.len() && 0 <= j < t.len() && t[i].variable == t[j].variable implies t[i].polarity
                == t[j].polarity by {
                assert(t[i] == t0[i] && t[j] == t0[j]);
            }
        }
    }

    /// Consume the store, yielding the trail as the solution.
    pub fn get_solution(self) -> (r: Vec<Literal>)
        ensures
            r@ == self.trail(),
    {
        self.assumptions
    }
}

/// Rollback round-trip: a `new_inference` followed by any run of recorded
/// assumptions and then a `rollback_inference` restores the observable state —
/// the trail, the boundary stack, and hence the value of every variable —
/// to exactly what it was before the checkpoint.
pub proof fn lemma_rollback_round_trip(
    before: AssumptionStore,
    during: AssumptionStore,
    after: AssumptionStore,
)
    requires
        during.bounds().len() == before.bounds().len() + 1,
        during.bounds().drop_last() == before.bounds(),
        during.bounds().last() as nat == before.trail().len(),
        during.trail().len() >= before.trail().len(),
        during.trail().take(before.trail().len() as int) == before.trail(),
        // `after` is what `rollback_inference` makes of `during`:
        after.bounds() == during.bounds().drop_last(),
        after.trail() == during.trail().take(during.bounds().last() as int),
    ensures
        after.trail() == before.trail(),
        after.bounds() == before.bounds(),
        forall|v: Variable| trail_value(after.trail(), v) == trail_value(before.trail(), v),
{
    assert(after.trail() == before.trail());
}

} // verus!
