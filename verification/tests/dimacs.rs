use sat::dimacs::{parse, print};
use sat::literal::Literal;

fn lit(l: i32) -> Literal {
    Literal::from_dimacs(l).unwrap()
}

fn lines_of(text: &str) -> Vec<Vec<u8>> {
    text.lines().map(|l| l.as_bytes().to_vec()).collect()
}

fn parsed(text: &str) -> Option<Vec<Vec<Literal>>> {
    parse(&lines_of(text)).map(|cs| cs.iter().map(|c| c.iter().clone()).collect())
}

#[test]
fn parse_simple() {
    assert_eq!(
        parsed("p cnf 2 2\n1 -2 0\n2 0"),
        Some(vec![vec![lit(1), lit(-2)], vec![lit(2)]])
    );
}

#[test]
fn parse_comments_and_case() {
    assert_eq!(
        parsed("c a comment\nC shouting\nP CNF 1 1\n1 0"),
        Some(vec![vec![lit(1)]])
    );
}

#[test]
fn parse_clause_spanning_lines() {
    assert_eq!(
        parsed("p cnf 3 1\n1\n2\n3 0"),
        Some(vec![vec![lit(1), lit(2), lit(3)]])
    );
}

#[test]
fn parse_two_clauses_one_line() {
    assert_eq!(
        parsed("p cnf 2 2\n1 0 2 0"),
        Some(vec![vec![lit(1)], vec![lit(2)]])
    );
}

#[test]
fn parse_trailing_unterminated_clause() {
    // One clause short of the declared count with no final 0 is flushed.
    assert_eq!(
        parsed("p cnf 2 2\n1 0\n2"),
        Some(vec![vec![lit(1)], vec![lit(2)]])
    );
}

#[test]
fn parse_rejects_larger_deficit() {
    assert_eq!(parsed("p cnf 3 3\n1 0"), None);
}

#[test]
fn parse_rejects_double_problem_line() {
    assert_eq!(parsed("p cnf 1 1\np cnf 1 1\n1 0"), None);
}

#[test]
fn parse_rejects_stray_characters() {
    assert_eq!(parsed("p cnf 1 1\n1 x 0"), None);
    assert_eq!(parsed("p cnf 1 1\n+1 0"), None);
}

#[test]
fn parse_rejects_clause_before_problem_line() {
    assert_eq!(parsed("1 0\np cnf 1 1"), None);
}

#[test]
fn parse_rejects_excess_clause_lines() {
    assert_eq!(parsed("p cnf 1 1\n1 0\n1 0"), None);
}

#[test]
fn parse_rejects_malformed_problem_line() {
    assert_eq!(parsed("p cnf 1\n1 0"), None);
    assert_eq!(parsed("p dnf 1 1\n1 0"), None);
    assert_eq!(parsed("p cnf 1 x\n1 0"), None);
}

#[test]
fn parse_ignores_variable_count_field() {
    // The declared variable count is never even read.
    assert_eq!(parsed("p cnf zzz 1\n1 0"), Some(vec![vec![lit(1)]]));
}

#[test]
fn parse_empty_input() {
    assert_eq!(parsed(""), Some(vec![]));
}

#[test]
fn parse_duplicate_literal_skipped() {
    assert_eq!(
        parsed("p cnf 1 1\n1 1 -1 0"),
        Some(vec![vec![lit(1), lit(-1)]])
    );
}

#[test]
fn parse_no_literal_tokens_end_clause() {
    // A token whose integer denotes no literal ends the clause exactly as
    // `0` does: `-0` is zero, and the magnitude of `-2147483648` does not
    // fit in an `i32`.
    assert_eq!(parsed("p cnf 1 1\n1 -0"), Some(vec![vec![lit(1)]]));
    assert_eq!(parsed("p cnf 1 1\n1 -2147483648"), Some(vec![vec![lit(1)]]));
    assert_eq!(parsed("p cnf 1 1\n1 -2147483649"), None);
}

#[test]
fn print_unsat() {
    assert_eq!(print(None), "s UNSATISFIABLE\n");
}

#[test]
fn print_sat() {
    assert_eq!(
        print(Some(vec![lit(1), lit(-2), lit(3)])),
        "s SATISFIABLE\nv 1 -2 3 0\n"
    );
}

#[test]
fn print_sat_empty_trail() {
    assert_eq!(print(Some(vec![])), "s SATISFIABLE\nv 0\n");
}
