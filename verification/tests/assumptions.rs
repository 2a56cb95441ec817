use sat::assumptions::{Assumption, AssumptionStore};
use sat::literal::Literal;

fn lit(l: i32) -> Literal {
    Literal::from_dimacs(l).unwrap()
}

#[test]
fn get_empty() {
    let one = lit(1);
    let assumptions = AssumptionStore::new();

    assert_eq!(assumptions.get_var(one.variable()), Assumption::Unknown);
    assert_eq!(assumptions.get_lit(one), Assumption::Unknown);
}

#[test]
fn get_lit_true() {
    let one = lit(1);
    let mut assumptions = AssumptionStore::new();

    assumptions.assume_lit(one);

    assert_eq!(assumptions.get_var(one.variable()), Assumption::Assume(true));
    assert_eq!(assumptions.get_lit(one), Assumption::Assume(true));
}

#[test]
fn get_lit_false() {
    let one = lit(1);
    let mut assumptions = AssumptionStore::new();

    assumptions.assume_lit(one.negate());

    assert_eq!(assumptions.get_var(one.variable()), Assumption::Assume(false));

    assert_eq!(assumptions.get_lit(one.negate()), Assumption::Assume(true));
    assert_eq!(assumptions.get_lit(one), Assumption::Assume(false));
}

#[test]
fn test_rollback() {
    let mut assumptions = AssumptionStore::new();

    assumptions.new_inference();

    assert!(assumptions.assume_lit(lit(1)));

    assumptions.new_inference();

    assert!(assumptions.assume_lit(lit(2)));

    assumptions.new_inference();

    assert!(assumptions.assume_lit(lit(3)));
    assert!(assumptions.assume_lit(lit(4)));

    assumptions.rollback_inference();

    assert!(assumptions.assume_lit(lit(-3)));

    assert_eq!(assumptions.get_lit(lit(1)), Assumption::Assume(true));
    assert_eq!(assumptions.get_lit(lit(2)), Assumption::Assume(true));
    assert_eq!(assumptions.get_lit(lit(3)), Assumption::Assume(false));
    assert_eq!(assumptions.get_lit(lit(4)), Assumption::Unknown);

    assumptions.rollback_inference();

    assert_eq!(assumptions.get_lit(lit(1)), Assumption::Assume(true));
    assert_eq!(assumptions.get_lit(lit(2)), Assumption::Unknown);

    assumptions.rollback_inference();

    assert_eq!(assumptions.get_lit(lit(1)), Assumption::Unknown);
}

#[test]
fn test_solution() {
    let mut assumptions = AssumptionStore::new();

    assumptions.new_inference();

    assert!(assumptions.assume_lit(lit(1)));

    assumptions.new_inference();

    assert!(assumptions.assume_lit(lit(2)));

    assumptions.rollback_inference();

    let soln = assumptions.get_solution();

    assert!(soln.contains(&lit(1)));
    assert!(!soln.contains(&lit(2)));
}

#[test]
fn conflicting_assumption_rejected() {
    let mut assumptions = AssumptionStore::new();

    assert!(assumptions.assume_lit(lit(5)));
    // Re-assuming the same polarity is fine; the opposite one is a conflict
    // and leaves the store untouched.
    assert!(assumptions.assume_lit(lit(5)));
    assert!(!assumptions.assume_lit(lit(-5)));
    assert_eq!(assumptions.get_lit(lit(5)), Assumption::Assume(true));
}

#[test]
fn rollback_round_trip_observable() {
    // The observable state after a checkpointed run of assumptions and a
    // rollback matches the state from before the checkpoint.
    let mut assumptions = AssumptionStore::new();
    assert!(assumptions.assume_lit(lit(7)));
    assert!(assumptions.assume_lit(lit(-9)));

    assumptions.new_inference();
    assert!(assumptions.assume_lit(lit(2)));
    assert!(assumptions.assume_lit(lit(7)));
    assert!(assumptions.assume_lit(lit(-4)));
    assumptions.rollback_inference();

    assert_eq!(assumptions.get_lit(lit(7)), Assumption::Assume(true));
    assert_eq!(assumptions.get_lit(lit(-9)), Assumption::Assume(true));
    assert_eq!(assumptions.get_lit(lit(2)), Assumption::Unknown);
    assert_eq!(assumptions.get_lit(lit(4)), Assumption::Unknown);

    let soln = assumptions.get_solution();
    assert_eq!(soln, vec![lit(7), lit(-9)]);
}
