use cdcl_sat::Clause;
use cdcl_sat::Literal;
use cdcl_sat::LiteralSet;
use cdcl_sat::Sign;

fn lit(code: i32) -> Literal {
    Literal::from_code(code).unwrap()
}

fn dimacs(code: i32) -> (Sign, u64) {
    if code < 0 {
        (Sign::Neg, (-(code as i64)) as u64)
    } else {
        (Sign::Pos, code as u64)
    }
}

fn clause(codes: &[i32]) -> Clause {
    let lits: Vec<(Sign, u64)> = codes.iter().map(|c| dimacs(*c)).collect();
    Clause::from_dimacs_clause(&lits)
}

fn codes(clause: &Clause) -> Vec<i32> {
    clause.lits().iter().map(|l| l.code()).collect()
}

fn assignment(codes: &[i32]) -> LiteralSet {
    codes.iter().copied().collect()
}

fn watches(clause: &Clause) -> (i32, Option<i32>) {
    (clause.first_watched_lit().code(), clause.second_watched_lit().map(|l| l.code()))
}

#[test]
fn fresh_clause_watches_its_first_two_literals() {
    let c = clause(&[4, -2, 7]);
    assert_eq!(codes(&c), vec![4, -2, 7]);
    assert_eq!(watches(&c), (4, Some(-2)));
    assert!(!c.is_unary());
}

#[test]
fn fresh_unit_clause_watches_its_only_literal() {
    let c = clause(&[-6]);
    assert_eq!(codes(&c), vec![-6]);
    assert_eq!(watches(&c), (-6, None));
    assert!(c.is_unary());
}

#[test]
fn asserting_clause_starts_with_the_asserting_literal() {
    let c = Clause::new_asserting_clause(lit(-3), vec![lit(1), lit(2)]);
    assert_eq!(codes(&c), vec![-3, 1, 2]);
    assert_eq!(watches(&c), (-3, None));
    assert!(c.is_unary());
}

#[test]
fn asserting_clause_of_one_literal() {
    let c = Clause::new_asserting_clause(lit(5), Vec::new());
    assert_eq!(codes(&c), vec![5]);
    assert_eq!(watches(&c), (5, None));
}

#[test]
fn strengthen_on_the_second_watch_finds_the_next_literal() {
    let mut c = clause(&[1, 2, 3, 4]);
    let next = c.strengthen(lit(2), &assignment(&[-2]));
    assert_eq!(next, Some(lit(3)));
    assert_eq!(watches(&c), (1, Some(3)));
    assert_eq!(codes(&c), vec![1, 2, 3, 4]);
}

#[test]
fn strengthen_skips_false_literals() {
    let mut c = clause(&[1, 2, 3, 4]);
    let next = c.strengthen(lit(2), &assignment(&[-2, -3]));
    assert_eq!(next, Some(lit(4)));
    assert_eq!(watches(&c), (1, Some(4)));
}

#[test]
fn strengthen_on_the_first_watch_slides_the_second_into_it() {
    let mut c = clause(&[1, 2, 3]);
    let next = c.strengthen(lit(1), &assignment(&[-1]));
    assert_eq!(next, Some(lit(3)));
    assert_eq!(watches(&c), (2, Some(3)));
}

#[test]
fn strengthen_without_replacement_leaves_one_watch() {
    let mut c = clause(&[1, 2, 3]);
    let next = c.strengthen(lit(2), &assignment(&[-2, -3]));
    assert_eq!(next, None);
    assert_eq!(watches(&c), (1, None));
    assert!(c.is_unary());
}

#[test]
fn strengthen_may_pick_a_true_literal() {
    let mut c = clause(&[1, 2, 3]);
    let next = c.strengthen(lit(2), &assignment(&[-2, 3]));
    assert_eq!(next, Some(lit(3)));
}

#[test]
fn un_strengthen_restores_a_second_watch() {
    let mut c = clause(&[1, 2, 3]);
    c.strengthen(lit(2), &assignment(&[-2, -3]));
    assert!(c.is_unary());
    let next = c.un_strengthen(&assignment(&[-3]));
    assert_eq!(next, Some(lit(2)));
    assert_eq!(watches(&c), (1, Some(2)));
}

#[test]
fn un_strengthen_finds_nothing_while_all_others_are_false() {
    let mut c = clause(&[1, 2]);
    c.strengthen(lit(2), &assignment(&[-2]));
    assert_eq!(c.un_strengthen(&assignment(&[-2])), None);
    assert!(c.is_unary());
}

#[test]
fn strengthen_then_restore_keeps_the_watched_pair() {
    let before = assignment(&[-4]);
    let mut during = before.clone();
    during.insert(-2);
    let mut c = clause(&[1, 2, 3, 4]);
    c.strengthen(lit(2), &during);
    assert_eq!(watches(&c), (1, Some(3)));
    c.un_strengthen(&before);
    assert_eq!(watches(&c), (1, Some(2)));
}

#[test]
fn strengthen_on_first_then_restore_swaps_the_watched_pair() {
    let before = assignment(&[]);
    let during = assignment(&[-1]);
    let mut c = clause(&[1, 2, 3]);
    c.strengthen(lit(1), &during);
    assert_eq!(watches(&c), (2, Some(3)));
    c.un_strengthen(&before);
    assert_eq!(watches(&c), (2, Some(1)));
}

#[test]
fn restore_picks_the_earliest_literal_not_the_old_watch() {
    let empty = assignment(&[]);
    let mut c = clause(&[1, 2, 3]);
    c.strengthen(lit(2), &assignment(&[-2]));
    assert_eq!(watches(&c), (1, Some(3)));
    c.strengthen(lit(3), &assignment(&[-3]));
    assert_eq!(watches(&c), (1, Some(2)));
    c.strengthen(lit(2), &assignment(&[-2]));
    assert_eq!(watches(&c), (1, Some(3)));
    c.un_strengthen(&empty);
    assert_eq!(watches(&c), (1, Some(2)));
}
