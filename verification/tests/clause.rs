use sat::assumptions::AssumptionStore;
use sat::clause::Clause;
use sat::literal::Literal;

fn lit(l: i32) -> Literal {
    Literal::from_dimacs(l).unwrap()
}

fn assumptions() -> AssumptionStore {
    AssumptionStore::new()
}

#[test]
fn empty() {
    let c = Clause::new();
    let assumptions = assumptions();

    assert!(!c.is_satisfied(&assumptions));
    assert!(c.is_unsatisfiable(&assumptions));

    assert_eq!(c.get_unit(&assumptions), None);
}

#[test]
fn unit() {
    let mut c = Clause::new();
    let assumptions = assumptions();

    c.add_literal(lit(1));

    assert!(!c.is_satisfied(&assumptions));
    assert!(!c.is_unsatisfiable(&assumptions));

    assert_eq!(c.get_unit(&assumptions), Some(lit(1)));
}

#[test]
fn two() {
    let mut c = Clause::new();
    let assumptions = assumptions();

    c.add_literal(lit(1));
    c.add_literal(lit(-2));

    assert!(!c.is_satisfied(&assumptions));
    assert!(!c.is_unsatisfiable(&assumptions));

    assert_eq!(c.get_unit(&assumptions), None);
}

#[test]
fn two_satisfied() {
    let mut c = Clause::new();
    let mut assumptions = assumptions();

    c.add_literal(lit(1));
    c.add_literal(lit(-2));

    // adding an assumption that ensures X is satisfied
    assumptions.assume_lit(lit(1));

    assert!(c.is_satisfied(&assumptions));
    assert!(!c.is_unsatisfiable(&assumptions));

    assert_eq!(c.get_unit(&assumptions), None);
}

#[test]
fn two_to_unit() {
    let mut c = Clause::new();
    let mut assumptions = assumptions();

    c.add_literal(lit(1));
    c.add_literal(lit(-2));

    // Adding an assumption in the *wrong* direction.
    assumptions.assume_lit(lit(-1));

    assert!(!c.is_satisfied(&assumptions));
    assert!(!c.is_unsatisfiable(&assumptions));

    assert_eq!(c.get_unit(&assumptions), Some(lit(-2)));
}

#[test]
fn two_unsatisfiable() {
    let mut c = Clause::new();
    let mut assumptions = assumptions();

    c.add_literal(lit(1));
    c.add_literal(lit(-2));

    // Adding an assumption in the *wrong* direction.
    assumptions.assume_lit(lit(-1));
    assumptions.assume_lit(lit(2));

    assert!(!c.is_satisfied(&assumptions));
    assert!(c.is_unsatisfiable(&assumptions));

    assert_eq!(c.get_unit(&assumptions), None);
}

#[test]
fn tautology_kept() {
    // `x OR NOT x` is not the empty clause: the negation must be appended,
    // while an exact duplicate is skipped.
    let mut c = Clause::new();
    c.add_literal(lit(1));
    c.add_literal(lit(1));
    c.add_literal(lit(-1));
    assert_eq!(c.iter().as_slice(), &[lit(1), lit(-1)]);

    let mut assumptions = assumptions();
    assumptions.assume_lit(lit(-1));
    assert!(c.is_satisfied(&assumptions));
    assert!(!c.is_unsatisfiable(&assumptions));
}

#[test]
fn all_false_clause_has_no_unit() {
    // An entirely-false clause is unsatisfiable, and `get_unit` stays
    // silent about it: callers check unsatisfiability separately.
    let mut c = Clause::new();
    c.add_literal(lit(3));
    let mut assumptions = assumptions();
    assumptions.assume_lit(lit(-3));

    assert!(c.is_unsatisfiable(&assumptions));
    assert_eq!(c.get_unit(&assumptions), None);
    assert!(!c.is_satisfied(&assumptions));
}
