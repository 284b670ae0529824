use sat_solver::{parse_dimacs, sudoku_givens, Node, Propagation, SearchOutcome, Solver, SolverError};

fn load(text: &str) -> Solver {
    let mut s = Solver::new();
    s.add_sat_file(text.as_bytes()).expect("well-formed input");
    s
}

#[test]
fn scenario_a_forces_both_variables() {
    let mut s = load("1 -2 0\n2 0\n");
    assert_eq!(s.solve(), SearchOutcome::Satisfied(vec![true, true]));
    // Both values were forced, variable 2 first, with no decision.
    assert_eq!(
        s.tree,
        vec![
            Node { literal: 2, value: true, picked: false },
            Node { literal: 1, value: true, picked: false },
        ]
    );
}

#[test]
fn scenario_b_contradictory_units() {
    let mut s = load("1 0\n-1 0\n");
    assert_eq!(s.solve(), SearchOutcome::Unsatisfiable);
}

#[test]
fn scenario_c_xor_is_unsatisfiable() {
    let mut s = load("1 2 0\n-1 2 0\n1 -2 0\n-1 -2 0\n");
    assert_eq!(s.solve(), SearchOutcome::Unsatisfiable);
}

#[test]
fn scenario_d_empty_formula() {
    let mut s = Solver::new();
    assert_eq!(s.solve(), SearchOutcome::Satisfied(vec![]));
    let mut t = load("");
    assert_eq!(t.solve(), SearchOutcome::Satisfied(vec![]));
}

#[test]
fn scenario_e_lone_terminator_is_malformed() {
    let mut s = Solver::new();
    assert_eq!(s.add_sat_file(b"1 2 0\n0\n"), Err(SolverError::MalformedInput));
    // Nothing was added.
    assert_eq!(s.clauses.len(), 0);
}

#[test]
fn headers_and_comments_are_skipped() {
    let cs = parse_dimacs(b"c a comment\np cnf 3 2\n1 -3 0\n2 3 -1 0\n").unwrap();
    assert_eq!(cs, vec![vec![(1, true), (3, false)], vec![(2, true), (3, true), (1, false)]]);
}

#[test]
fn text_after_terminator_is_ignored() {
    let cs = parse_dimacs(b"1 2 0 junk\r\n-2 0").unwrap();
    assert_eq!(cs, vec![vec![(1, true), (2, true)], vec![(2, false)]]);
}

#[test]
fn blank_lines_and_plus_sign() {
    let cs = parse_dimacs(b"\n  \n+4\t-1 0\n\n").unwrap();
    assert_eq!(cs, vec![vec![(4, true), (1, false)]]);
}

#[test]
fn malformed_inputs() {
    for text in ["1 x 0\n", "1 2\n", "1 2", "40000 0\n", "- 0\n", "1- 0\n", "0\n", " c 1 0\n"] {
        assert_eq!(parse_dimacs(text.as_bytes()), Err(SolverError::MalformedInput), "{:?}", text);
    }
    assert_eq!(parse_dimacs(b"32767 0\n").unwrap(), vec![vec![(32767, true)]]);
}

#[test]
fn loading_builds_counts_and_index() {
    let s = load("1 -2 0\n2 3 0\n-3 -1 0\n");
    assert_eq!(s.literal_values.len() - 1, 3);
    assert_eq!(s.n_not_falses, vec![2, 2, 2]);
    assert_eq!(s.literal_clauses[1], vec![0, 2]);
    assert_eq!(s.literal_clauses[2], vec![0, 1]);
    assert_eq!(s.literal_clauses[3], vec![1, 2]);
}

#[test]
fn repeated_variable_is_indexed_once() {
    let s = load("1 1 -1 0\n");
    assert_eq!(s.literal_clauses[1], vec![0]);
    assert_eq!(s.n_not_falses, vec![3]);
}

#[test]
fn second_file_appends_and_grows() {
    let mut s = load("1 0\n");
    s.add_sat_file(b"-5 2 0\n").unwrap();
    assert_eq!(s.clauses.len(), 2);
    assert_eq!(s.literal_values.len() - 1, 5);
    assert_eq!(s.literal_values.len(), 6);
}

#[test]
fn add_node_and_literal_value() {
    let mut s = load("1 -2 0\n2 3 0\n");
    assert_eq!(s.literal_value(2), None);
    assert_eq!(s.add_node(2, true, true), Ok(0));
    assert_eq!(s.literal_value(2), Some(true));
    assert_eq!(s.n_not_falses, vec![1, 2]);
    assert_eq!(s.add_node(2, false, false), Err(SolverError::DoubleAssignment));
    assert_eq!(s.add_node(1, false, false), Ok(1));
    assert_eq!(s.n_not_falses, vec![0, 2]);
    assert_eq!(s.literal_value(9), None);
}

#[test]
fn truncate_and_repush_restores_counts() {
    let mut s = load("1 -2 0\n2 3 0\n-1 -3 2 0\n");
    let at_checkpoint = s.n_not_falses.clone();
    s.add_node(1, true, true).unwrap();
    s.add_node(2, true, false).unwrap();
    s.add_node(3, false, true).unwrap();
    let full = s.n_not_falses.clone();
    let entries = s.tree.clone();
    s.truncate_to(0);
    assert_eq!(s.n_not_falses, at_checkpoint);
    assert_eq!(s.literal_values, vec![None, None, None, None]);
    for e in &entries {
        s.add_node(e.literal, e.value, e.picked).unwrap();
    }
    assert_eq!(s.n_not_falses, full);
    s.truncate_to(1);
    assert_eq!(s.tree.len(), 1);
    assert_eq!(s.literal_value(3), None);
    assert_eq!(s.n_not_falses, vec![2, 2, 2]);
}

#[test]
fn propagate_forces_then_reaches_fixpoint() {
    let mut s = load("-1 2 0\n-2 3 0\n");
    s.add_node(1, true, true).unwrap();
    assert_eq!(s.propagate(), Propagation::Fixpoint);
    assert_eq!(s.literal_value(2), Some(true));
    assert_eq!(s.literal_value(3), Some(true));
    let tree = s.tree.clone();
    let counts = s.n_not_falses.clone();
    // A second call after the fixpoint changes nothing.
    assert_eq!(s.propagate(), Propagation::Fixpoint);
    assert_eq!(s.tree, tree);
    assert_eq!(s.n_not_falses, counts);
}

#[test]
fn propagate_reports_conflict() {
    let mut s = load("-1 2 0\n-1 -2 0\n");
    s.add_node(1, true, true).unwrap();
    match s.propagate() {
        Propagation::Conflict(c) => assert_eq!(c, 1),
        other => panic!("expected a conflict, got {:?}", other),
    }
}

#[test]
fn last_decision_and_satisfaction() {
    let mut s = load("1 2 0\n-1 -2 0\n");
    s.add_node(1, true, true).unwrap();
    s.add_node(2, false, false).unwrap();
    assert_eq!(s.last_decision_before(2), Some(0));
    assert_eq!(s.last_decision_before(0), None);
    assert!(s.is_satisfied(0));
    assert!(s.is_satisfied(1));
    s.truncate_to(1);
    assert!(s.is_satisfied(0));
    assert!(!s.is_satisfied(1));
}

fn satisfies(clauses: &[Vec<(u16, bool)>], m: &[bool]) -> bool {
    clauses.iter().all(|c| c.iter().any(|&(v, p)| m[v as usize - 1] == p))
}

fn brute_force_greatest(clauses: &[Vec<(u16, bool)>], n: usize) -> Option<Vec<bool>> {
    // Counting down visits assignments from greatest to least, variable 1 most significant.
    for k in (0..(1u32 << n)).rev() {
        let m: Vec<bool> = (0..n).map(|i| (k >> (n - 1 - i)) & 1 == 1).collect();
        if satisfies(clauses, &m) {
            return Some(m);
        }
    }
    None
}

#[test]
fn search_agrees_with_brute_force() {
    let texts = [
        "1 2 0\n-1 -2 0\n",
        "-1 0\n1 2 3 0\n-2 -3 0\n",
        "1 2 0\n-1 2 0\n1 -2 0\n",
        "-1 -2 0\n-2 -3 0\n-1 -3 0\n1 2 3 0\n",
        "1 -2 3 0\n-1 2 0\n-3 0\n2 -4 0\n4 1 0\n",
        "-1 0\n-2 0\n-3 0\n-4 0\n1 2 3 4 0\n",
        "-4 0\n",
    ];
    for text in texts {
        let mut s = load(text);
        let n = s.literal_values.len() - 1;
        let expected = brute_force_greatest(&s.clauses, n);
        let first = s.solve();
        match (&first, &expected) {
            (SearchOutcome::Satisfied(w), Some(m)) => {
                assert_eq!(w, m, "{}", text);
                assert!(satisfies(&s.clauses, w));
            }
            (SearchOutcome::Unsatisfiable, None) => {}
            _ => panic!("{}: got {:?}, brute force {:?}", text, first, expected),
        }
        // Searching again gives the same outcome.
        assert_eq!(s.solve(), first);
    }
}

#[test]
fn sudoku_givens_positions() {
    let mut line = vec!['.'; 81];
    line[0] = '5';
    line[10] = '3';
    line[80] = '9';
    assert_eq!(sudoku_givens(&line), vec![(1, 1, '5'), (2, 2, '3'), (9, 9, '9')]);
    assert_eq!(sudoku_givens(&['.'; 9]), vec![]);
}

#[test]
fn clause_lists_load_like_text() {
    let mut s = Solver::new();
    s.add_clauses(&vec![vec![1, -2], vec![2, 0]]).unwrap();
    assert_eq!(s.clauses, vec![vec![(1, true), (2, false)], vec![(2, true)]]);
    assert_eq!(s.solve(), SearchOutcome::Satisfied(vec![true, true]));
}

#[test]
fn clause_list_errors() {
    let mut s = Solver::new();
    assert_eq!(s.add_clauses(&vec![vec![1], vec![0]]), Err(SolverError::MalformedInput));
    assert_eq!(s.add_clauses(&vec![vec![]]), Err(SolverError::MalformedInput));
    assert_eq!(s.add_clauses(&vec![vec![1, 0, 2]]), Err(SolverError::MalformedInput));
    assert_eq!(s.add_clauses(&vec![vec![40000]]), Err(SolverError::MalformedInput));
    assert_eq!(s.clauses.len(), 0);
    s.add_clauses(&vec![vec![-32767, 3, 0]]).unwrap();
    assert_eq!(s.literal_values.len(), 32768);
}

#[test]
fn loading_keeps_the_trail() {
    let mut s = load("1 2 0\n");
    s.add_node(1, false, true).unwrap();
    assert_eq!(s.propagate(), Propagation::Fixpoint);
    let tree = s.tree.clone();
    s.add_sat_file(b"").unwrap();
    assert_eq!(s.tree, tree);
    s.add_sat_file(b"-1 3 0\n1 -2 0\n").unwrap();
    assert_eq!(s.tree, tree);
    assert_eq!(s.propagated, 0);
    assert_eq!(s.literal_value(2), Some(true));
    // New clauses are counted under the current values: [-1, 3] has both literals
    // live, [1, -2] has both falsified.
    assert_eq!(s.n_not_falses, vec![1, 2, 0]);
    s.add_clauses(&vec![vec![2, 3]]).unwrap();
    assert_eq!(s.tree, tree);
    assert_eq!(s.n_not_falses, vec![1, 2, 0, 2]);
}

#[test]
fn simplify_scenario_b_forces_then_conflicts() {
    let mut s = load("1 0\n-1 0\n");
    assert_eq!(s.simplify(), Propagation::Conflict(1));
    assert_eq!(s.tree, vec![Node { literal: 1, value: true, picked: false }]);
    assert_eq!(s.n_not_falses[1], 0);
}

#[test]
fn simplify_then_propagate_scenario_a() {
    let mut s = load("1 -2 0\n2 0\n");
    assert_eq!(s.simplify(), Propagation::Fixpoint);
    assert_eq!(s.tree, vec![Node { literal: 2, value: true, picked: false }]);
    assert_eq!(s.propagate(), Propagation::Fixpoint);
    assert_eq!(
        s.tree,
        vec![
            Node { literal: 2, value: true, picked: false },
            Node { literal: 1, value: true, picked: false },
        ]
    );
}
