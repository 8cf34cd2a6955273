use cdcl_sat::Clause;
use cdcl_sat::Literal;
use cdcl_sat::LiteralSet;
use cdcl_sat::Sign;
use cdcl_sat::Solver;

fn lit(code: i32) -> Literal {
    Literal::from_code(code).unwrap()
}

fn dimacs(code: i32) -> (Sign, u64) {
    if code < 0 {
        (Sign::Neg, (-(code as i64)) as u64)
    } else {
        (Sign::Pos, code as u64)
    }
}

fn clause(codes: &[i32]) -> Clause {
    let lits: Vec<(Sign, u64)> = codes.iter().map(|c| dimacs(*c)).collect();
    Clause::from_dimacs_clause(&lits)
}

fn codes(clause: &Clause) -> Vec<i32> {
    clause.lits().iter().map(|l| l.code()).collect()
}

fn solver_of(formula: &[Vec<i32>]) -> Solver {
    let mut solver = Solver::new();
    for codes in formula {
        solver.add_clause(clause(codes));
    }
    solver
}

fn assignment(codes: &[i32]) -> LiteralSet {
    codes.iter().copied().collect()
}

fn chain() -> Vec<Vec<i32>> {
    vec![
        vec![1, 2],
        vec![-1, 3],
        vec![-3, 4],
        vec![-2, -4, 5],
        vec![-5, 6, 7],
        vec![-6, -7],
        vec![-4, -6, 8],
        vec![-8, -1, 2],
    ]
}

#[test]
fn new_solver_holds_only_the_root_frame() {
    let solver = Solver::new();
    assert!(solver.clauses().is_empty());
    assert!(solver.assigned_lits().is_empty());
    assert!(solver.satisfied_clauses().is_empty());
    assert_eq!(solver.decision_stack().len(), 1);
    assert_eq!(solver.decision_stack()[0].lit(), Literal::non_existent());
    assert_eq!(solver.decision_stack()[0].lvl(), 0);
    assert!(solver.watchers_of(lit(1)).is_empty());
}

#[test]
fn clause_ids_are_dense() {
    let mut solver = Solver::new();
    assert_eq!(solver.add_clause(clause(&[1, 2])), 0);
    assert_eq!(solver.add_clause(clause(&[-1])), 1);
    assert_eq!(solver.add_clause(clause(&[2, 3, 4])), 2);
    assert_eq!(solver.clauses().len(), 3);
}

#[test]
fn inserted_clause_holds_the_same_literals() {
    let mut solver = Solver::new();
    let id = solver.add_clause(clause(&[5, -3, 8, 1]));
    assert_eq!(codes(&solver.clauses()[id]), vec![5, -3, 8, 1]);
    let other = solver.add_clause(clause(&[-8]));
    assert_eq!(codes(&solver.clauses()[other]), vec![-8]);
    assert_eq!(codes(&solver.clauses()[id]), vec![5, -3, 8, 1]);
}

#[test]
fn inserted_clause_is_registered_under_its_two_watches() {
    let mut solver = Solver::new();
    let a = solver.add_clause(clause(&[1, 2, 3]));
    let b = solver.add_clause(clause(&[2, -1]));
    let c = solver.add_clause(clause(&[3]));
    let mut under_two = solver.watchers_of(lit(2));
    under_two.sort();
    assert_eq!(solver.watchers_of(lit(1)), vec![a]);
    assert_eq!(under_two, vec![a, b]);
    assert_eq!(solver.watchers_of(lit(-1)), vec![b]);
    assert_eq!(solver.watchers_of(lit(3)), vec![c]);
    assert!(solver.watchers_of(lit(-3)).is_empty());
    let first = solver.clauses()[a].first_watched_lit();
    let second = solver.clauses()[a].second_watched_lit().unwrap();
    assert_ne!(first, second);
    assert!(solver.clauses()[a].lits().contains(&first));
    assert!(solver.clauses()[a].lits().contains(&second));
}

#[test]
fn model_gives_every_variable_a_value() {
    let formula = chain();
    let mut solver = solver_of(&formula);
    let model = solver.solve().unwrap();
    for var in 1..=8 {
        assert!(model.contains(&var) || model.contains(&-var));
    }
    assert!(solver.is_model(&model));
}

#[test]
fn model_holds_no_literal_with_its_complement() {
    let formula = chain();
    let model = solver_of(&formula).solve().unwrap();
    for code in model.iter() {
        assert!(!model.contains(&-code));
    }
    for codes in formula.iter() {
        assert!(codes.iter().any(|c| model.contains(c)));
    }
}

#[test]
fn model_is_the_assignment_of_the_solver() {
    let mut solver = solver_of(&chain());
    let model = solver.solve().unwrap();
    assert_eq!(&model, solver.assigned_lits());
}

#[test]
fn every_propagation_is_forced_by_its_antecedent() {
    let mut solver = solver_of(&chain());
    let model = solver.solve().unwrap();
    let mut propagations = 0;
    for frame in solver.decision_stack() {
        for propagated in frame.propagated_lits_iter() {
            let antecedent = frame.implying_clause_of(propagated).unwrap();
            for other in solver.clauses()[antecedent].lits() {
                if *other != propagated {
                    assert!(model.contains(&other.complementary().code()));
                }
            }
            propagations += 1;
        }
    }
    assert!(propagations > 0);
}

#[test]
fn assignment_is_what_the_frames_added() {
    let mut solver = solver_of(&chain());
    let model = solver.solve().unwrap();
    let mut seen: Vec<i32> = Vec::new();
    for (level, frame) in solver.decision_stack().iter().enumerate() {
        assert_eq!(frame.lvl() as usize, level);
        let mut own: Vec<i32> = frame.propagated_lits_iter().iter().map(|l| l.code()).collect();
        if level > 0 {
            own.push(frame.lit().code());
        }
        for code in own {
            assert!(!seen.contains(&code));
            assert!(model.contains(&code));
            seen.push(code);
        }
    }
    assert_eq!(seen.len(), model.len());
}

#[test]
fn decisions_are_on_unassigned_variables() {
    let mut solver = solver_of(&chain());
    solver.solve().unwrap();
    let frames = solver.decision_stack();
    for (level, frame) in frames.iter().enumerate().skip(1) {
        let decided = frame.lit().code();
        for earlier in frames.iter().take(level) {
            assert_ne!(earlier.lit().code(), decided);
            assert_ne!(earlier.lit().code(), -decided);
            assert_eq!(earlier.implying_clause_of(frame.lit()), None);
            assert_eq!(earlier.implying_clause_of(frame.lit().complementary()), None);
        }
    }
}

#[test]
fn units_are_propagated_in_the_root_frame() {
    let mut solver = solver_of(&[vec![1], vec![-1, 2], vec![-2, 3]]);
    let model = solver.solve().unwrap();
    assert_eq!(model, assignment(&[1, 2, 3]));
    let frames = solver.decision_stack();
    assert_eq!(frames.len(), 1);
    assert_eq!(frames[0].implying_clause_of(lit(1)), Some(0));
    assert_eq!(frames[0].implying_clause_of(lit(2)), Some(1));
    assert_eq!(frames[0].implying_clause_of(lit(3)), Some(2));
    assert_eq!(solver.satisfied_clauses().len(), 3);
}

#[test]
fn conflict_in_the_root_frame_is_unsat() {
    let mut solver = solver_of(&[vec![1], vec![-1, 2], vec![-2, -1]]);
    assert_eq!(solver.solve(), None);
}

#[test]
fn unsat_leaves_learnt_clauses_in_the_database() {
    let formula = vec![vec![1, 2], vec![-1, 2], vec![1, -2], vec![-1, -2]];
    let mut solver = solver_of(&formula);
    assert_eq!(solver.solve(), None);
    assert!(solver.clauses().len() > formula.len());
    for (id, codes_before) in formula.iter().enumerate() {
        assert_eq!(&codes(&solver.clauses()[id]), codes_before);
    }
}

#[test]
fn is_model_checks_every_clause() {
    let solver = solver_of(&[vec![1, 2], vec![-1, 3]]);
    assert!(solver.is_model(&assignment(&[1, 3])));
    assert!(solver.is_model(&assignment(&[-1, 2])));
    assert!(solver.is_model(&assignment(&[-1, 2, 3])));
    assert!(!solver.is_model(&assignment(&[1])));
    assert!(!solver.is_model(&assignment(&[1, -3])));
    assert!(!solver.is_model(&assignment(&[])));
}

#[test]
fn is_model_refuses_a_literal_with_its_complement() {
    let solver = solver_of(&[vec![1, 2]]);
    assert!(solver.is_model(&assignment(&[1, -2])));
    assert!(!solver.is_model(&assignment(&[1, -1])));
    assert!(!solver.is_model(&assignment(&[2, 1, -1])));
}

#[test]
fn every_assignment_is_a_model_of_no_clauses() {
    let solver = Solver::new();
    assert!(solver.is_model(&assignment(&[])));
    assert!(solver.is_model(&assignment(&[4, -7])));
}

#[test]
fn a_pure_formula_is_satisfied() {
    let formula = vec![vec![1, 2, 3], vec![1, -2], vec![2, -3], vec![3, 1]];
    let mut solver = solver_of(&formula);
    let model = solver.solve().unwrap();
    assert!(solver.is_model(&model));
}

fn satisfiable(vars: usize, formula: &[Vec<i32>]) -> bool {
    (0u32..(1u32 << vars)).any(|bits| {
        formula.iter().all(|c| {
            c.iter().any(|l| {
                let set = (bits >> (l.abs() - 1)) & 1 == 1;
                if *l > 0 {
                    set
                } else {
                    !set
                }
            })
        })
    })
}

#[test]
fn a_formula_that_misleads_the_search_still_gets_a_model() {
    let formula = vec![
        vec![-4, 3, -2],
        vec![1, -3, 2],
        vec![-3, -1, -2],
        vec![-3, 4, 1],
        vec![-1, 4],
        vec![4, 1],
        vec![2, -4],
    ];
    assert!(satisfiable(4, &formula));
    let model = solver_of(&formula).solve().unwrap();
    assert!(solver_of(&formula).is_model(&model));
    for codes in formula.iter() {
        assert!(codes.iter().any(|c| model.contains(c)));
    }
    for code in model.iter() {
        assert!(!model.contains(&-code));
    }
}

#[test]
fn a_model_never_holds_a_literal_with_its_complement() {
    let formula = vec![
        vec![1, 3],
        vec![-1, -2, -3],
        vec![3, -2, -4],
        vec![4, -1],
        vec![-4, 2, 3],
        vec![1, -3],
        vec![4, 2, -3],
    ];
    let model = solver_of(&formula).solve().unwrap();
    for code in model.iter() {
        assert!(!model.contains(&-code));
    }
    for codes in formula.iter() {
        assert!(codes.iter().any(|c| model.contains(c)));
    }
    for var in 1..=4 {
        assert!(model.contains(&var) || model.contains(&-var));
    }
}

#[test]
fn answers_agree_with_trying_every_assignment() {
    let mut state: u64 = 42;
    let mut next = |bound: u64| {
        state = state.wrapping_mul(6364136223846793005).wrapping_add(1442695040888963407);
        (state >> 33) % bound
    };
    let mut sat = 0;
    let mut unsat = 0;
    for _ in 0..1500 {
        let vars = 3 + next(4) as usize;
        let size = 4 + next(22) as usize;
        let mut formula: Vec<Vec<i32>> = Vec::new();
        for _ in 0..size {
            let width = 1 + next(3) as usize;
            let mut codes: Vec<i32> = Vec::new();
            while codes.len() < width.min(vars) {
                let var = 1 + next(vars as u64) as i32;
                if codes.iter().any(|l: &i32| l.abs() == var) {
                    continue;
                }
                codes.push(if next(2) == 0 { var } else { -var });
            }
            formula.push(codes);
        }
        let mut solver = solver_of(&formula);
        match solver.solve() {
            Some(model) => {
                sat += 1;
                assert!(formula.iter().all(|c| c.iter().any(|l| model.contains(l))));
                assert!(model.iter().all(|l| !model.contains(&-l)));
            }
            None => {
                unsat += 1;
                assert!(!satisfiable(vars, &formula));
            }
        }
    }
    assert!(sat > 100);
    assert!(unsat > 100);
}
