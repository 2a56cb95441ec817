use sat::assumptions::{Assumption, AssumptionStore};
use sat::clause::Clause;
use sat::dimacs;
use sat::dpll::satisfiable;
use sat::literal::{Literal, Variable};
use sat::pure_literal_elimination::eliminate;

fn lit(l: i32) -> Literal {
    Literal::from_dimacs(l).unwrap()
}

fn clause(lits: &[i32]) -> Clause {
    let mut clause = Clause::new();
    for l in lits.iter().copied() {
        clause.add_literal(lit(l));
    }
    clause
}

fn lines_of(text: &str) -> Vec<Vec<u8>> {
    text.lines().map(|l| l.as_bytes().to_vec()).collect()
}

fn solve(text: &str) -> Option<Vec<Literal>> {
    let clauses = dimacs::parse(&lines_of(text)).expect("well-formed input");
    satisfiable(&clauses)
}

/// Replay a trail into a store so clause statuses can be queried under it.
fn store_of(trail: &[Literal]) -> AssumptionStore {
    let mut assumptions = AssumptionStore::new();
    for l in trail.iter().copied() {
        assert!(assumptions.assume_lit(l));
    }
    assumptions
}

fn assert_trail_satisfies(text: &str, trail: &[Literal]) {
    let clauses = dimacs::parse(&lines_of(text)).expect("well-formed input");
    let assumptions = store_of(trail);
    for c in clauses.iter() {
        assert!(c.is_satisfied(&assumptions));
    }
}

/// Brute-force check over all assignments of the variables 1..=n: does any
/// of them satisfy every clause?
fn brute_force_satisfiable(text: &str, n: u32) -> bool {
    let clauses = dimacs::parse(&lines_of(text)).expect("well-formed input");
    for mask in 0u64..(1u64 << n) {
        let all = clauses.iter().all(|c| {
            c.iter().iter().any(|l| {
                let Variable(id) = l.variable();
                let value = mask & (1u64 << (id - 1)) != 0;
                value == l.polarity()
            })
        });
        if all {
            return true;
        }
    }
    false
}

#[test]
fn single_unit_sat() {
    let trail = solve("p cnf 1 1\n1 0").expect("satisfiable");
    assert!(trail.contains(&lit(1)));
    assert_trail_satisfies("p cnf 1 1\n1 0", &trail);
}

#[test]
fn contradictory_units_unsat() {
    assert_eq!(solve("p cnf 1 2\n1 0\n-1 0"), None);
    assert!(!brute_force_satisfiable("p cnf 1 2\n1 0\n-1 0", 1));
}

#[test]
fn three_vars_sat() {
    let text = "p cnf 3 3\n1 2 0\n-1 3 0\n-3 0";
    let trail = solve(text).expect("satisfiable");
    assert_trail_satisfies(text, &trail);
    // Clause three forces 3 false, so clause two forces 1 false, so clause
    // one forces 2 true.
    let assumptions = store_of(&trail);
    assert_eq!(assumptions.get_lit(lit(1)), Assumption::Assume(false));
    assert_eq!(assumptions.get_lit(lit(2)), Assumption::Assume(true));
}

#[test]
fn pure_literal_sat() {
    let text = "p cnf 2 2\n1 2 0\n1 -2 0";
    let trail = solve(text).expect("satisfiable");
    assert_trail_satisfies(text, &trail);
    // Variable 1 is pure: it appears only positively, so it is driven true.
    let assumptions = store_of(&trail);
    assert_eq!(assumptions.get_lit(lit(1)), Assumption::Assume(true));
}

#[test]
fn wikipedia_unit_propagation() {
    let text = "p cnf 4 4\n1 2 0\n-1 3 0\n-3 4 0\n1 0";
    let trail = solve(text).expect("satisfiable");
    assert_trail_satisfies(text, &trail);
    let assumptions = store_of(&trail);
    assert_eq!(assumptions.get_lit(lit(1)), Assumption::Assume(true));
    assert_eq!(assumptions.get_lit(lit(3)), Assumption::Assume(true));
    assert_eq!(assumptions.get_lit(lit(4)), Assumption::Assume(true));
}

#[test]
fn all_two_clauses_unsat() {
    let text = "p cnf 2 4\n1 2 0\n1 -2 0\n-1 2 0\n-1 -2 0";
    assert_eq!(solve(text), None);
    assert!(!brute_force_satisfiable(text, 2));
}

#[test]
fn deep_conflict_backtracks() {
    // Both polarities of variable 2 conflict once 1 is guessed true, yet
    // the formula is satisfiable: the driver must revisit the guess on 1.
    let text = "p cnf 3 4\n-1 2 3 0\n-1 2 -3 0\n-1 -2 3 0\n-1 -2 -3 0";
    let trail = solve(text).expect("satisfiable with variable 1 false");
    assert_trail_satisfies(text, &trail);
    let assumptions = store_of(&trail);
    assert_eq!(assumptions.get_lit(lit(1)), Assumption::Assume(false));
}

#[test]
fn unsat_matches_brute_force() {
    // The solver's verdict agrees with exhaustive search on a family of
    // small formulas, unsatisfiable and satisfiable alike.
    let cases: [(&str, u32); 7] = [
        ("p cnf 1 2\n1 0\n-1 0", 1),
        ("p cnf 2 4\n1 2 0\n1 -2 0\n-1 2 0\n-1 -2 0", 2),
        ("p cnf 3 4\n1 2 3 0\n-1 -2 0\n-2 -3 0\n-1 -3 0", 3),
        ("p cnf 3 3\n1 2 0\n-1 3 0\n-3 0", 3),
        ("p cnf 3 5\n1 0\n-1 2 0\n-2 3 0\n-3 -1 0\n2 3 0", 3),
        ("p cnf 3 4\n-1 2 3 0\n-1 2 -3 0\n-1 -2 3 0\n-1 -2 -3 0", 3),
        ("p cnf 3 8\n1 2 3 0\n1 2 -3 0\n1 -2 3 0\n1 -2 -3 0\n-1 2 3 0\n-1 2 -3 0\n-1 -2 3 0\n-1 -2 -3 0", 3),
    ];
    for (text, n) in cases {
        assert_eq!(solve(text).is_some(), brute_force_satisfiable(text, n));
    }
}

#[test]
fn deterministic_results() {
    // Identical input gives identical output, trail included.
    for text in [
        "p cnf 3 3\n1 2 0\n-1 3 0\n-3 0",
        "p cnf 4 4\n1 2 0\n-1 3 0\n-3 4 0\n1 0",
        "p cnf 2 4\n1 2 0\n1 -2 0\n-1 2 0\n-1 -2 0",
    ] {
        assert_eq!(solve(text), solve(text));
    }
}

#[test]
fn empty_formula_sat() {
    let trail = solve("p cnf 0 0").expect("vacuously satisfiable");
    assert!(trail.is_empty());
}

#[test]
fn empty_clause_unsat() {
    let clauses = vec![clause(&[])];
    assert_eq!(satisfiable(&clauses), None);
}

#[test]
fn eliminate_assumes_pure_variables() {
    // Variable 1 occurs only positively, variable 2 with both polarities:
    // only the pure one gets assumed.
    let clauses = vec![clause(&[1, 2]), clause(&[1, -2])];
    let mut assumptions = AssumptionStore::new();
    eliminate(&clauses, &mut assumptions);
    assert_eq!(assumptions.get_lit(lit(1)), Assumption::Assume(true));
    assert_eq!(assumptions.get_lit(lit(2)), Assumption::Unknown);
}

#[test]
fn eliminate_skips_satisfied_clauses() {
    // Once the clause holding the only negative occurrence is satisfied,
    // variable 2 counts as pure among the remaining clauses.
    let clauses = vec![clause(&[1, -2]), clause(&[2, 3])];
    let mut assumptions = AssumptionStore::new();
    assert!(assumptions.assume_lit(lit(1)));
    eliminate(&clauses, &mut assumptions);
    assert_eq!(assumptions.get_lit(lit(2)), Assumption::Assume(true));
    assert_eq!(assumptions.get_lit(lit(3)), Assumption::Assume(true));
}
