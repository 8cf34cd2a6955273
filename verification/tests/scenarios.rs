use cdcl_sat::Clause;
use cdcl_sat::Literal;
use cdcl_sat::LiteralSet;
use cdcl_sat::Sign;
use cdcl_sat::Solver;

fn dimacs(code: i32) -> (Sign, u64) {
    if code < 0 {
        (Sign::Neg, (-(code as i64)) as u64)
    } else {
        (Sign::Pos, code as u64)
    }
}

fn clause(codes: &[i32]) -> Clause {
    let lits: Vec<(Sign, u64)> = codes.iter().map(|c| dimacs(*c)).collect();
    Clause::from_dimacs_clause(&lits)
}

fn solve(formula: &[Vec<i32>]) -> Option<LiteralSet> {
    let mut solver = Solver::new();
    for codes in formula {
        solver.add_clause(clause(codes));
    }
    solver.solve()
}

fn is_model(formula: &[Vec<i32>], model: &LiteralSet) -> bool {
    let consistent = model.iter().all(|l| !model.contains(&-l));
    let satisfied = formula.iter().all(|c| c.iter().any(|l| model.contains(l)));
    consistent && satisfied
}

#[test]
fn empty_formula_is_sat_with_empty_model() {
    let model = solve(&[]);
    assert_eq!(model.map(|m| m.len()), Some(0));
}

#[test]
fn single_unit_clause_is_sat() {
    let model = solve(&[vec![1]]).unwrap();
    assert!(model.contains(&1));
    assert!(!model.contains(&-1));
}

#[test]
fn contradicting_units_are_unsat() {
    assert!(solve(&[vec![1], vec![-1]]).is_none());
}

#[test]
fn all_four_rows_of_two_variables_are_unsat() {
    let formula = vec![vec![1, 2], vec![-1, 2], vec![1, -2], vec![-1, -2]];
    assert!(solve(&formula).is_none());
}

#[test]
fn implication_cycle_is_sat_with_a_model() {
    let formula = vec![vec![1, 2, 3], vec![-1, 2], vec![-2, 3], vec![-3, 1]];
    let model = solve(&formula).unwrap();
    assert!(is_model(&formula, &model));
}

#[test]
fn pigeonhole_three_in_two_is_unsat() {
    let formula = vec![
        vec![1, 2],
        vec![3, 4],
        vec![5, 6],
        vec![-1, -3],
        vec![-1, -5],
        vec![-3, -5],
        vec![-2, -4],
        vec![-2, -6],
        vec![-4, -6],
    ];
    assert!(solve(&formula).is_none());
}

#[test]
fn solving_twice_gives_the_same_answer() {
    let formula = vec![vec![1, 2, 3], vec![-1, 2], vec![-2, 3], vec![-3, 1], vec![4, -1], vec![-4, 5]];
    let first = solve(&formula);
    let second = solve(&formula);
    assert_eq!(first, second);
    assert!(is_model(&formula, &first.unwrap()));
}

#[test]
fn literal_round_trip() {
    let lit = Literal::from_dimacs_lit(Sign::Neg, 7);
    assert_eq!(lit.code(), -7);
    assert_eq!(lit.complementary().code(), 7);
    assert_eq!(lit.complementary().complementary(), lit);
    assert_eq!(Literal::non_existent().code(), 0);
}
