use sat::assumptions::{Assumption, AssumptionStore};
use sat::clause::Clause;
use sat::literal::Literal;
use sat::unit_propagation::propagate;

fn lit(l: i32) -> Literal {
    Literal::from_dimacs(l).unwrap()
}

fn clause(lits: &[i32]) -> Clause {
    let mut clause = Clause::new();
    for l in lits.iter().copied() {
        clause.add_literal(lit(l));
    }
    clause
}

fn store(lits: &[i32]) -> AssumptionStore {
    let mut assumptions = AssumptionStore::new();
    for l in lits.iter().copied() {
        assert!(assumptions.assume_lit(lit(l)));
    }
    assumptions
}

// Tests that we correctly detect conflicts.
#[test]
fn prop_zero() {
    let clauses = vec![clause(&[])];
    let mut assumptions = store(&[]);

    assert!(!propagate(&clauses, lit(1), &mut assumptions));
}

// Tests that we can resolve clauses simply.
#[test]
fn prop_one() {
    let clauses = vec![clause(&[1, 2, 3])];
    let mut assumptions = store(&[]);

    // propagation introduces no conflicts
    assert!(propagate(&clauses, lit(1), &mut assumptions));

    // Propagation only introduced one literal.
    assert_eq!(assumptions.get_lit(lit(1)), Assumption::Assume(true));
    assert_eq!(assumptions.get_lit(lit(2)), Assumption::Unknown);
    assert_eq!(assumptions.get_lit(lit(3)), Assumption::Unknown);

    // the only clause is now satisfied
    assert!(clauses[0].is_satisfied(&assumptions));
}

// Tests propagation of a single literal that doesn't resolve the clauses.
#[test]
fn prop_one_neg() {
    let clauses = vec![clause(&[1, 2, 3])];
    let mut assumptions = store(&[]);

    assert!(propagate(&clauses, lit(-1), &mut assumptions));

    // propagation only introduced one assumption.
    assert_eq!(assumptions.get_lit(lit(1)), Assumption::Assume(false));
    assert_eq!(assumptions.get_lit(lit(2)), Assumption::Unknown);
    assert_eq!(assumptions.get_lit(lit(3)), Assumption::Unknown);

    // the only clause is still unresolved
    assert!(!clauses[0].is_satisfied(&assumptions));
    assert!(!clauses[0].is_unsatisfiable(&assumptions));
}

// Tests that we can propagate to completion.
#[test]
fn prop_two() {
    let clauses = vec![clause(&[1, 2, 3])];
    let mut assumptions = store(&[-1]);

    assert!(propagate(&clauses, lit(-2), &mut assumptions));

    // propagation only introduced two assumptions
    assert_eq!(assumptions.get_lit(lit(1)), Assumption::Assume(false));
    assert_eq!(assumptions.get_lit(lit(2)), Assumption::Assume(false));
    assert_eq!(assumptions.get_lit(lit(3)), Assumption::Assume(true));

    // the clause is satisfied
    assert!(clauses[0].is_satisfied(&assumptions));
}

// Tests propagations actually propagate through multiple clauses.
#[test]
fn prop_multi_clause() {
    let clauses = vec![clause(&[-1, 2]), clause(&[-2, 3]), clause(&[-3, 4])];
    let mut assumptions = store(&[]);

    assert!(propagate(&clauses, lit(1), &mut assumptions));

    // propagation only introduced one assumption.
    assert_eq!(assumptions.get_lit(lit(1)), Assumption::Assume(true));
    assert_eq!(assumptions.get_lit(lit(2)), Assumption::Assume(true));
    assert_eq!(assumptions.get_lit(lit(3)), Assumption::Assume(true));
    assert_eq!(assumptions.get_lit(lit(4)), Assumption::Assume(true));

    // all clauses are now satisfied.
    assert!(clauses[0].is_satisfied(&assumptions));
    assert!(clauses[1].is_satisfied(&assumptions));
    assert!(clauses[2].is_satisfied(&assumptions));
}

// Tests that existing unit clauses will be propagated, even if they don't
// contain the requested literal.
#[test]
fn prop_external_lit() {
    let clauses = vec![clause(&[1]), clause(&[2])];
    let mut assumptions = store(&[]);

    assert!(propagate(&clauses, lit(3), &mut assumptions));

    assert_eq!(assumptions.get_lit(lit(1)), Assumption::Assume(true));
    assert_eq!(assumptions.get_lit(lit(2)), Assumption::Assume(true));

    assert!(clauses[0].is_satisfied(&assumptions));
    assert!(clauses[1].is_satisfied(&assumptions));
}

// Tests that we detect a conflict *during* propagation
#[test]
fn prop_detect_conflict() {
    let clauses = vec![clause(&[-1, 2]), clause(&[-2, 3])];
    let mut assumptions = store(&[-3]);

    assert!(!propagate(&clauses, lit(1), &mut assumptions));

    // Conflicts don't affect existing assumptions
    assert_eq!(assumptions.get_lit(lit(3)), Assumption::Assume(false));

    assert!(clauses[1].is_unsatisfiable(&assumptions));
}

// Tests an example found on wikipedia.
#[test]
fn prop_example_wikipedia() {
    // 1 = a, 2 = b, 3 = c, 4 = d
    let clauses = vec![clause(&[1, 2]), clause(&[-1, 3]), clause(&[-3, 4]), clause(&[1])];
    let mut assumptions = store(&[]);

    assert!(propagate(&clauses, lit(1), &mut assumptions));

    assert!(clauses[0].is_satisfied(&assumptions));
    assert!(clauses[1].is_satisfied(&assumptions));
    assert!(clauses[2].is_satisfied(&assumptions));
    assert!(clauses[3].is_satisfied(&assumptions));

    // 1 implies 3; 2 may get set, but it's not necessary.
    assert_eq!(assumptions.get_lit(lit(1)), Assumption::Assume(true));
    assert_eq!(assumptions.get_lit(lit(3)), Assumption::Assume(true));
}
