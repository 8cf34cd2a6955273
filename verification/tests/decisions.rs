use cdcl_sat::Constant;
use cdcl_sat::Decision;
use cdcl_sat::Literal;

fn lit(code: i32) -> Literal {
    Literal::from_code(code).unwrap()
}

fn sorted(lits: Vec<Literal>) -> Vec<i32> {
    let mut codes: Vec<i32> = lits.iter().map(|l| l.code()).collect();
    codes.sort();
    codes
}

#[test]
fn fresh_frame_holds_only_its_decision() {
    let frame = Decision::from(lit(3), 2);
    assert_eq!(frame.lit(), lit(3));
    assert_eq!(frame.lvl(), 2);
    assert!(frame.satisfied_clauses().is_empty());
    assert_eq!(frame.propagated_lits_len(), 0);
    assert!(frame.propagated_lits_iter().is_empty());
    assert!(frame.implying_clauses_iter().is_empty());
    assert_eq!(frame.get_conflict_lit(), None);
    assert_eq!(frame.implying_clause_of(lit(3)), None);
}

#[test]
fn root_frame_has_no_literal() {
    let frame = Decision::from(Literal::non_existent(), 0);
    assert_eq!(frame.lit().code(), 0);
    assert_eq!(frame.lvl(), 0);
}

#[test]
fn satisfied_clauses_are_a_set() {
    let mut frame = Decision::from(lit(1), 1);
    frame.add_satisfied_clause(4);
    frame.add_satisfied_clause(2);
    frame.add_satisfied_clause(4);
    assert_eq!(frame.satisfied_clauses().len(), 2);
    assert!(frame.satisfied_clauses().contains(&4));
    assert!(frame.satisfied_clauses().contains(&2));
    assert!(!frame.satisfied_clauses().contains(&3));
}

#[test]
fn propagations_are_recorded_with_their_antecedents() {
    let mut frame = Decision::from(lit(1), 1);
    assert_eq!(frame.add_propagated_lit(lit(2), 7), Constant::NoConflict);
    assert_eq!(frame.add_propagated_lit(lit(-3), 9), Constant::NoConflict);
    assert_eq!(frame.implying_clause_of(lit(2)), Some(7));
    assert_eq!(frame.implying_clause_of(lit(-3)), Some(9));
    assert_eq!(frame.implying_clause_of(lit(3)), None);
    assert_eq!(frame.implying_clause_of(lit(1)), None);
    assert_eq!(frame.propagated_lits_len(), 2);
    assert_eq!(sorted(frame.propagated_lits_iter()), vec![-3, 2]);
    let mut antecedents = frame.implying_clauses_iter();
    antecedents.sort();
    assert_eq!(antecedents, vec![7, 9]);
    assert_eq!(frame.get_conflict_lit(), None);
}

#[test]
fn recording_the_complement_is_a_conflict() {
    let mut frame = Decision::from(lit(1), 1);
    assert_eq!(frame.add_propagated_lit(lit(2), 0), Constant::NoConflict);
    assert_eq!(frame.add_propagated_lit(lit(-2), 1), Constant::Conflict);
    assert_eq!(frame.get_conflict_lit(), Some(lit(-2)));
    assert_eq!(frame.implying_clause_of(lit(-2)), Some(1));
    assert_eq!(frame.implying_clause_of(lit(2)), Some(0));
    assert_eq!(frame.propagated_lits_len(), 2);
}

#[test]
fn complement_of_the_decision_is_no_conflict_for_the_frame() {
    let mut frame = Decision::from(lit(1), 1);
    assert_eq!(frame.add_propagated_lit(lit(-1), 3), Constant::NoConflict);
    assert_eq!(frame.get_conflict_lit(), None);
}

#[test]
fn a_literal_keeps_its_first_antecedent() {
    let mut frame = Decision::from(lit(1), 1);
    frame.add_propagated_lit(lit(2), 5);
    frame.add_propagated_lit(lit(3), 6);
    assert_eq!(frame.add_propagated_lit(lit(2), 8), Constant::NoConflict);
    assert_eq!(frame.implying_clause_of(lit(2)), Some(5));
    assert_eq!(frame.propagated_lits_len(), 2);
    assert_eq!(frame.order_of(lit(2)), Some(0));
    assert_eq!(frame.order_of(lit(3)), Some(1));
    assert_eq!(frame.order_of(lit(4)), None);
}

#[test]
fn propagations_are_ordered_as_they_were_recorded() {
    let mut frame = Decision::from(lit(9), 4);
    for (place, code) in [5, -6, 7, -8].iter().enumerate() {
        frame.add_propagated_lit(lit(*code), place + 10);
        assert_eq!(frame.order_of(lit(*code)), Some(place));
    }
    assert_eq!(frame.propagated_lits_len(), 4);
}
