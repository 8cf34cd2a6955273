use cdcl_sat::Clause;
use cdcl_sat::Literal;
use cdcl_sat::Sign;
use cdcl_sat::VSIDSDecider;

fn lit(code: i32) -> Literal {
    Literal::from_code(code).unwrap()
}

fn dimacs(code: i32) -> (Sign, u64) {
    if code < 0 {
        (Sign::Neg, (-(code as i64)) as u64)
    } else {
        (Sign::Pos, code as u64)
    }
}

fn clause(codes: &[i32]) -> Clause {
    let lits: Vec<(Sign, u64)> = codes.iter().map(|c| dimacs(*c)).collect();
    Clause::from_dimacs_clause(&lits)
}

#[test]
fn new_decider_has_nothing_to_offer() {
    let mut decider = VSIDSDecider::new();
    assert_eq!(decider.age(), 0);
    assert_eq!(decider.score_of(lit(1)), None);
    assert_eq!(decider.next_literal(), None);
    assert_eq!(decider.age(), 1);
    assert_eq!(decider.next_literal(), None);
    assert_eq!(decider.age(), 1);
}

#[test]
fn observing_raises_scores_by_one_at_first() {
    let mut decider = VSIDSDecider::new();
    decider.add_clause(&clause(&[1, -2]));
    assert_eq!(decider.score_of(lit(1)), Some(1));
    assert_eq!(decider.score_of(lit(-2)), Some(1));
    assert_eq!(decider.score_of(lit(2)), None);
    decider.add_clause(&clause(&[1, 3]));
    assert_eq!(decider.score_of(lit(1)), Some(2));
    assert_eq!(decider.score_of(lit(3)), Some(1));
    assert_eq!(decider.score_of(lit(-2)), Some(1));
}

#[test]
fn increment_grows_with_every_eighth_decision() {
    let mut decider = VSIDSDecider::new();
    decider.add_clause(&clause(&[1]));
    for _ in 0..7 {
        decider.next_literal();
    }
    assert_eq!(decider.age(), 7);
    decider.add_clause(&clause(&[2]));
    assert_eq!(decider.score_of(lit(2)), Some(1));
    decider.next_literal();
    assert_eq!(decider.age(), 8);
    decider.add_clause(&clause(&[3]));
    assert_eq!(decider.score_of(lit(3)), Some(2));
    decider.add_clause(&clause(&[1, 3]));
    assert_eq!(decider.score_of(lit(1)), Some(3));
    assert_eq!(decider.score_of(lit(3)), Some(4));
    for _ in 0..8 {
        decider.next_literal();
    }
    assert_eq!(decider.age(), 16);
    decider.add_clause(&clause(&[4]));
    assert_eq!(decider.score_of(lit(4)), Some(3));
}

#[test]
fn observing_never_lowers_a_score() {
    let mut decider = VSIDSDecider::new();
    let formula = [vec![1, 2], vec![-1, 3], vec![2, 3, -4]];
    for codes in formula.iter() {
        decider.add_clause(&clause(codes));
    }
    let before: Vec<Option<u64>> = (-4..=4).filter(|c| *c != 0).map(|c| decider.score_of(lit(c))).collect();
    decider.next_literal();
    decider.add_clause(&clause(&[-4, 2]));
    let after: Vec<Option<u64>> = (-4..=4).filter(|c| *c != 0).map(|c| decider.score_of(lit(c))).collect();
    for (b, a) in before.iter().zip(after.iter()) {
        assert!(a >= b);
    }
    assert_eq!(decider.score_of(lit(-4)), Some(2));
    assert_eq!(decider.score_of(lit(2)), Some(3));
}

#[test]
fn first_request_seeds_the_pool_and_offers_the_best() {
    let mut decider = VSIDSDecider::new();
    decider.add_clause(&clause(&[1, 2]));
    decider.add_clause(&clause(&[2, 3]));
    assert!(!decider.is_unassigned(lit(2)));
    assert_eq!(decider.next_literal(), Some(lit(2)));
    assert_eq!(decider.age(), 1);
    assert!(decider.is_unassigned(lit(1)));
    assert!(decider.is_unassigned(lit(2)));
    assert!(decider.is_unassigned(lit(3)));
    assert!(!decider.is_unassigned(lit(-1)));
}

#[test]
fn assigned_literals_are_not_offered() {
    let mut decider = VSIDSDecider::new();
    decider.add_clause(&clause(&[3]));
    decider.add_clause(&clause(&[3, 2]));
    decider.add_clause(&clause(&[3, 2, 1]));
    assert_eq!(decider.next_literal(), Some(lit(3)));
    decider.assign_lit(lit(3));
    assert!(!decider.is_unassigned(lit(3)));
    assert_eq!(decider.next_literal(), Some(lit(2)));
    decider.assign_lit(lit(-2));
    assert!(!decider.is_unassigned(lit(2)));
    assert!(!decider.is_unassigned(lit(-2)));
    assert_eq!(decider.next_literal(), Some(lit(1)));
    decider.assign_lit(lit(1));
    assert_eq!(decider.next_literal(), None);
    assert_eq!(decider.age(), 3);
}

#[test]
fn unassigned_literals_are_offered_again() {
    let mut decider = VSIDSDecider::new();
    decider.add_clause(&clause(&[1, 2]));
    decider.add_clause(&clause(&[1, 3]));
    assert_eq!(decider.next_literal(), Some(lit(1)));
    decider.assign_lit(lit(1));
    let second = decider.next_literal().unwrap();
    assert!(second == lit(2) || second == lit(3));
    decider.un_assign_lit(lit(1));
    assert!(decider.is_unassigned(lit(1)));
    assert!(decider.is_unassigned(lit(-1)));
    assert_eq!(decider.next_literal(), Some(lit(1)));
}

#[test]
fn a_literal_without_a_score_is_never_offered() {
    let mut decider = VSIDSDecider::new();
    decider.un_assign_lit(lit(5));
    assert!(decider.is_unassigned(lit(5)));
    assert!(decider.is_unassigned(lit(-5)));
    assert_eq!(decider.next_literal(), None);
    assert_eq!(decider.age(), 1);
}

#[test]
fn a_first_request_offers_a_literal_reported_as_assigned_before() {
    let mut decider = VSIDSDecider::new();
    decider.add_clause(&clause(&[1]));
    decider.assign_lit(lit(1));
    assert_eq!(decider.next_literal(), Some(lit(1)));
}
