use cdcl_sat::learn_from_conflict;
use cdcl_sat::Clause;
use cdcl_sat::Constant;
use cdcl_sat::Decision;
use cdcl_sat::Literal;
use cdcl_sat::Sign;

fn lit(code: i32) -> Literal {
    Literal::from_code(code).unwrap()
}

fn dimacs(code: i32) -> (Sign, u64) {
    if code < 0 {
        (Sign::Neg, (-(code as i64)) as u64)
    } else {
        (Sign::Pos, code as u64)
    }
}

fn clause(codes: &[i32]) -> Clause {
    let lits: Vec<(Sign, u64)> = codes.iter().map(|c| dimacs(*c)).collect();
    Clause::from_dimacs_clause(&lits)
}

fn codes(clause: &Clause) -> Vec<i32> {
    clause.lits().iter().map(|l| l.code()).collect()
}

#[test]
fn conflict_of_two_implications_blames_the_decision() {
    let db = vec![clause(&[-1, 2]), clause(&[-1, -2])];
    let mut frame = Decision::from(lit(1), 1);
    assert_eq!(frame.add_propagated_lit(lit(2), 0), Constant::NoConflict);
    assert_eq!(frame.add_propagated_lit(lit(-2), 1), Constant::Conflict);
    let learnt = learn_from_conflict(&frame, &db);
    assert_eq!(codes(&learnt), vec![-1]);
    assert_eq!(learnt.first_watched_lit(), lit(-1));
    assert_eq!(learnt.second_watched_lit(), None);
}

#[test]
fn the_decision_is_asserted_where_it_is_a_terminal() {
    let db = vec![clause(&[-1, -5, 2]), clause(&[-1, -6, -2])];
    let mut frame = Decision::from(lit(1), 3);
    frame.add_propagated_lit(lit(2), 0);
    frame.add_propagated_lit(lit(-2), 1);
    let learnt = learn_from_conflict(&frame, &db);
    assert_eq!(codes(&learnt), vec![-1, -5]);
    assert_eq!(learnt.first_watched_lit(), lit(-1));
    assert!(learnt.is_unary());
}

#[test]
fn antecedents_are_walked_back_to_the_decision() {
    let db = vec![clause(&[-1, 2]), clause(&[-2, -7, 3]), clause(&[-2, -8, -3])];
    let mut frame = Decision::from(lit(1), 2);
    frame.add_propagated_lit(lit(2), 0);
    frame.add_propagated_lit(lit(3), 1);
    frame.add_propagated_lit(lit(-3), 2);
    let learnt = learn_from_conflict(&frame, &db);
    assert_eq!(codes(&learnt), vec![-1, -7, -8]);
    assert_eq!(learnt.first_watched_lit(), lit(-1));
}

#[test]
fn the_literal_left_in_the_queue_is_asserted_where_the_decision_is_no_terminal() {
    let db = vec![clause(&[-5, 2]), clause(&[-6, -2])];
    let mut frame = Decision::from(lit(1), 2);
    frame.add_propagated_lit(lit(2), 0);
    frame.add_propagated_lit(lit(-2), 1);
    let learnt = learn_from_conflict(&frame, &db);
    assert_eq!(codes(&learnt), vec![-6, -5]);
    assert_eq!(learnt.first_watched_lit(), lit(-6));
    assert_eq!(learnt.second_watched_lit(), None);
}

#[test]
fn conflict_in_the_root_frame() {
    let db = vec![clause(&[1]), clause(&[-1, 2]), clause(&[-1, -2])];
    let mut frame = Decision::from(Literal::non_existent(), 0);
    frame.add_propagated_lit(lit(1), 0);
    frame.add_propagated_lit(lit(2), 1);
    frame.add_propagated_lit(lit(-2), 2);
    let learnt = learn_from_conflict(&frame, &db);
    assert_eq!(codes(&learnt), vec![-1]);
}

#[test]
fn an_antecedent_recorded_later_is_not_followed() {
    let db = vec![clause(&[2, -3]), clause(&[3, -2]), clause(&[-2, -3])];
    let mut frame = Decision::from(lit(9), 1);
    frame.add_propagated_lit(lit(2), 0);
    frame.add_propagated_lit(lit(3), 1);
    frame.add_propagated_lit(lit(-2), 2);
    let learnt = learn_from_conflict(&frame, &db);
    assert_eq!(learnt.first_watched_lit().code(), codes(&learnt)[0]);
    assert!(learnt.is_unary());
    let mut sorted = codes(&learnt);
    sorted.sort();
    sorted.dedup();
    assert_eq!(sorted.len(), codes(&learnt).len());
}
