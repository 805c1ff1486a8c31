use dpll_sat::{Assignment, Clause, Formula, Literal, ParseError};

fn parse(text: &str) -> Result<Formula, ParseError> {
    Formula::parse_dimacs(text.as_bytes())
}

fn solve_text(text: &str) -> Option<Assignment> {
    parse(text).expect("well-formed input").solve()
}

/// Whether the DIMACS-style clauses hold under a total assignment of truth values.
fn holds(clauses: &[Vec<i64>], values: &[bool]) -> bool {
    clauses.iter().all(|c| {
        c.iter().any(|&v| {
            let value = values[(v.unsigned_abs() - 1) as usize];
            if v < 0 { !value } else { value }
        })
    })
}

fn satisfies(clauses: &[Vec<i64>], a: &Assignment) -> bool {
    clauses.iter().all(|c| {
        c.iter().any(|&v| {
            let id = (v.unsigned_abs() - 1) as usize;
            a.value(id) == Some(v > 0)
        })
    })
}

fn dimacs_text(num_vars: usize, clauses: &[Vec<i64>]) -> String {
    let mut text = format!("c generated\np cnf {} {}\n", num_vars, clauses.len());
    for c in clauses {
        for v in c {
            text.push_str(&format!("{} ", v));
        }
        text.push_str("0\n");
    }
    text
}

fn brute_force_sat(num_vars: usize, clauses: &[Vec<i64>]) -> bool {
    (0u32..(1u32 << num_vars)).any(|mask| {
        let values: Vec<bool> = (0..num_vars).map(|i| mask & (1 << i) != 0).collect();
        holds(clauses, &values)
    })
}

fn sample_formulas() -> Vec<(usize, Vec<Vec<i64>>)> {
    vec![
        (1, vec![vec![1]]),
        (2, vec![vec![1, 2], vec![-1, -2]]),
        (1, vec![vec![1], vec![-1]]),
        (3, vec![vec![1, 2], vec![-1, 3], vec![-3, -2], vec![2, 3]]),
        (2, vec![vec![1, 2], vec![1, -2], vec![-1, 2], vec![-1, -2]]),
        (3, vec![vec![-1, -2, -3], vec![1], vec![2]]),
        (4, vec![vec![1, -4], vec![-1, 4], vec![2, 3], vec![-2, -3], vec![4, 2], vec![-4, -3]]),
        (3, vec![vec![1, 2, 3], vec![-1, -2], vec![-2, -3], vec![-1, -3], vec![-1], vec![-2]]),
        (3, vec![vec![-3], vec![3, 1], vec![-1, 2], vec![-2]]),
    ]
}

#[test]
fn single_positive_clause_is_sat() {
    let a = solve_text("p cnf 1 1\n1 0\n").expect("satisfiable");
    assert_eq!(a.num_vars(), 1);
    assert_eq!(a.value(0), Some(true));
    assert_eq!(a.render(), "0 0");
}

#[test]
fn two_variables_exclusive_or() {
    let a = solve_text("p cnf 2 2\n1 2 0\n-1 -2 0\n").expect("satisfiable");
    assert_eq!(a.value(0), Some(true));
    assert_eq!(a.value(1), Some(false));
    assert_eq!(a.render(), "0 -1 0");
}

#[test]
fn contradictory_units_are_unsat() {
    assert!(solve_text("p cnf 1 2\n1 0\n-1 0\n").is_none());
}

#[test]
fn dnf_format_is_rejected() {
    assert!(matches!(parse("p dnf 1 1\n1 0\n"), Err(ParseError::UnsupportedFormat)));
}

#[test]
fn missing_clause_terminator_is_too_few() {
    assert!(matches!(parse("p cnf 1 2\n1 0\n"), Err(ParseError::NotEnoughClauses)));
}

#[test]
fn every_solution_satisfies_all_clauses() {
    for (n, clauses) in sample_formulas() {
        if let Some(a) = solve_text(&dimacs_text(n, &clauses)) {
            assert!(satisfies(&clauses, &a), "clauses {:?}", clauses);
        }
    }
}

#[test]
fn unsat_verdicts_match_brute_force() {
    for (n, clauses) in sample_formulas() {
        let found = solve_text(&dimacs_text(n, &clauses)).is_some();
        assert_eq!(found, brute_force_sat(n, &clauses), "clauses {:?}", clauses);
    }
}

#[test]
fn repeated_solves_agree() {
    for (n, clauses) in sample_formulas() {
        let text = dimacs_text(n, &clauses);
        let first = solve_text(&text).map(|a| a.render());
        let second = solve_text(&text).map(|a| a.render());
        assert_eq!(first, second);
    }
}

#[test]
fn empty_clause_is_unsat() {
    assert!(solve_text("p cnf 2 2\n1 2 0\n 0\n").is_none());
    let mut c = Clause::new();
    let a = Assignment::new(2);
    assert!(c.unsolvable(&a));
    assert!(!c.solved(&a));
    c.push(Literal::from_var(1));
    assert!(!c.unsolvable(&a));
}

#[test]
fn no_clauses_is_sat_with_nothing_assigned() {
    let a = solve_text("p cnf 3 0\n").expect("satisfiable");
    assert_eq!(a.num_vars(), 3);
    assert_eq!(a.value(0), None);
    assert_eq!(a.value(2), None);
    assert_eq!(a.render(), "UNASSIGNED UNASSIGNED UNASSIGNED 0");
}

#[test]
fn search_stops_once_satisfied() {
    let a = solve_text("c leaves the rest open\np cnf 3 1\n1 0\n").expect("satisfiable");
    assert_eq!(a.value(0), Some(true));
    assert_eq!(a.value(1), None);
    assert_eq!(a.render(), "0 UNASSIGNED UNASSIGNED 0");
}

#[test]
fn backtracking_finds_negated_first_variable() {
    let a = solve_text("p cnf 2 2\n-1 0\n1 2 0\n").expect("satisfiable");
    assert_eq!(a.value(0), Some(false));
    assert_eq!(a.value(1), Some(true));
    assert_eq!(a.render(), "-0 1 0");
}

#[test]
fn render_uses_decimal_ids() {
    let text = dimacs_text(12, &[vec![-12], vec![11]]);
    let a = solve_text(&text).expect("satisfiable");
    let r = a.render();
    assert!(r.starts_with("0 1 2 3 4 5 6 7 8 9 10 -11 0"), "{}", r);
}

#[test]
fn missing_problem_line() {
    assert!(matches!(parse(""), Err(ParseError::MissingProblemLine)));
    assert!(matches!(parse("c a comment\nc another\n"), Err(ParseError::MissingProblemLine)));
}

#[test]
fn invalid_problem_line() {
    assert!(matches!(parse("p cnf 1\n1 0\n"), Err(ParseError::InvalidProblemLine)));
    assert!(matches!(parse("q cnf 1 1\n1 0\n"), Err(ParseError::InvalidProblemLine)));
    assert!(matches!(parse("\np cnf 1 1\n1 0\n"), Err(ParseError::InvalidProblemLine)));
}

#[test]
fn invalid_counts() {
    assert!(matches!(parse("p cnf x 1\n1 0\n"), Err(ParseError::InvalidVariableCount)));
    assert!(matches!(parse("p cnf 1 -1\n1 0\n"), Err(ParseError::InvalidClauseCount)));
    assert!(matches!(
        parse("p cnf 99999999999999999999999 1\n1 0\n"),
        Err(ParseError::InvalidVariableCount)
    ));
}

fn illegal_token(text: &str) -> Vec<u8> {
    match parse(text) {
        Err(ParseError::IllegalVariable { token }) => token,
        other => panic!("expected an illegal variable, got {:?}", other.err()),
    }
}

#[test]
fn illegal_variables() {
    assert_eq!(illegal_token("p cnf 1 1\na 0\n"), b"a".to_vec());
    assert_eq!(illegal_token("p cnf 1 1\n2 0\n"), b"2".to_vec());
    assert_eq!(illegal_token("p cnf 2 1\n1 -3 0\n"), b"-3".to_vec());
    assert_eq!(illegal_token("p cnf 1 1\n0x1 0\n"), b"0x1".to_vec());
}

#[test]
fn comment_lines_do_not_change_the_result() {
    assert_eq!(illegal_token("p cnf 1 1\na"), illegal_token("c\np cnf 1 1\na"));
    assert_eq!(
        illegal_token("p cnf 1 1\nx 0\n"),
        illegal_token("c one\nc two\np cnf 1 1\nx 0\n")
    );
    let plain = solve_text("p cnf 2 2\n1 2 0\n-1 -2 0\n").map(|a| a.render());
    let commented = solve_text("c a\ncc b\np cnf 2 2\n1 2 0\n-1 -2 0\n").map(|a| a.render());
    assert_eq!(plain, commented);
}

#[test]
fn too_many_clauses() {
    assert!(matches!(parse("p cnf 1 1\n1 0\n-1 0\n"), Err(ParseError::TooManyClauses)));
}

#[test]
fn signs_and_spacing_are_accepted() {
    let a = solve_text("c x\n  p  cnf  +2 2 \n+1 -2 0\t\n-1 0  \n").expect("satisfiable");
    assert_eq!(a.value(0), Some(false));
    assert_eq!(a.value(1), Some(false));
}

#[test]
fn literal_from_var() {
    let l = Literal::from_var(3);
    assert_eq!((l.id, l.negated), (2, false));
    let l = Literal::from_var(-42);
    assert_eq!((l.id, l.negated), (41, true));
    let n = l.negate();
    assert_eq!((n.id, n.negated), (41, false));
    assert_eq!(n.negate(), l);
}

#[test]
fn assignment_assign_and_undo() {
    let mut a = Assignment::new(2);
    let l = Literal::from_var(-2);
    a.assign(l);
    assert!(a.assigned(l));
    assert!(!a.assigned(l.negate()));
    assert_eq!(a.value(1), Some(false));
    a.un_assign(l);
    assert!(!a.assigned(l));
    assert_eq!(a.value(1), None);
}

#[test]
fn unicode_whitespace_separates_tokens() {
    let a = solve_text("p\u{85}cnf 2 1\n1\u{a0}-2 0\u{3000}\n").expect("satisfiable");
    assert_eq!(a.value(0), Some(true));
    assert_eq!(a.value(1), None);
    assert_eq!(a.render(), "0 UNASSIGNED 0");
}

#[test]
fn unassigned_variables_render_as_marker_only() {
    assert_eq!(Assignment::new(2).render(), "UNASSIGNED UNASSIGNED 0");
    assert_eq!(Assignment::new(1).render(), "UNASSIGNED 0");
    assert_eq!(Assignment::new(0).render(), "0");
}
