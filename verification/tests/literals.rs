use cdcl_sat::Literal;
use cdcl_sat::Sign;

#[test]
fn positive_and_negative_literals_have_signed_codes() {
    assert_eq!(Literal::from_dimacs_lit(Sign::Pos, 5).code(), 5);
    assert_eq!(Literal::from_dimacs_lit(Sign::Neg, 5).code(), -5);
    assert_eq!(Literal::from_dimacs_lit(Sign::Pos, 2147483647).code(), 2147483647);
    assert_eq!(Literal::from_dimacs_lit(Sign::Neg, 2147483647).code(), -2147483647);
}

#[test]
fn complement_toggles_the_polarity() {
    let lit = Literal::from_dimacs_lit(Sign::Pos, 9);
    assert_eq!(lit.complementary().code(), -9);
    assert_ne!(lit.complementary(), lit);
}

#[test]
fn complement_of_the_complement_is_the_literal() {
    for var in [1u64, 2, 17, 2147483647] {
        for sign in [Sign::Pos, Sign::Neg] {
            let lit = Literal::from_dimacs_lit(sign, var);
            assert_eq!(lit.complementary().complementary(), lit);
        }
    }
}

#[test]
fn no_literal_is_its_own_complement() {
    let none = Literal::non_existent();
    assert_eq!(none.code(), 0);
    assert_eq!(none.complementary(), none);
    assert_eq!(Literal::from_dimacs_lit(Sign::Pos, 0), none);
    assert_eq!(Literal::from_dimacs_lit(Sign::Neg, 0), none);
}

#[test]
fn literal_from_its_code() {
    assert_eq!(Literal::from_code(-3), Some(Literal::from_dimacs_lit(Sign::Neg, 3)));
    assert_eq!(Literal::from_code(0), Some(Literal::non_existent()));
    assert_eq!(Literal::from_code(i32::MIN), None);
    assert_eq!(Literal::from_code(i32::MAX).map(|l| l.code()), Some(i32::MAX));
}

#[test]
fn literals_are_ordered_by_their_codes() {
    let a = Literal::from_dimacs_lit(Sign::Neg, 2);
    let b = Literal::from_dimacs_lit(Sign::Pos, 1);
    assert!(a < b);
    assert!(b > a);
    assert_eq!(a.max(b), b);
}
