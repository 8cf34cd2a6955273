use cdcl_sat::parse_dimacs;
use cdcl_sat::parser::clauses_of_instance;
use cdcl_sat::parser::parser_accepts;
use cdcl_sat::Clause;
use cdcl_sat::ParseFailure;
use cdcl_sat::Sign;

fn codes(clause: &Clause) -> Vec<i32> {
    clause.lits().iter().map(|l| l.code()).collect()
}

#[test]
fn parses_a_small_cnf() {
    let text = "c a comment\np cnf 3 2\n1 -2 3 0\n-1 2 0\n";
    let clauses = parse_dimacs(text).unwrap();
    assert_eq!(clauses.len(), 2);
    assert_eq!(codes(&clauses[0]), vec![1, -2, 3]);
    assert_eq!(codes(&clauses[1]), vec![-1, 2]);
    assert_eq!(clauses[0].first_watched_lit().code(), 1);
    assert_eq!(clauses[0].second_watched_lit().map(|l| l.code()), Some(-2));
    assert!(!clauses[0].is_unary());
}

#[test]
fn unit_clause_is_watched_once() {
    let clauses = parse_dimacs("p cnf 1 1\n-1 0\n").unwrap();
    assert_eq!(clauses.len(), 1);
    assert_eq!(codes(&clauses[0]), vec![-1]);
    assert!(clauses[0].is_unary());
    assert_eq!(clauses[0].second_watched_lit(), None);
}

#[test]
fn repeated_clauses_and_literals_are_dropped() {
    let clauses = parse_dimacs("p cnf 2 3\n1 2 1 0\n-1 0\n1 2 0\n").unwrap();
    assert_eq!(clauses.len(), 2);
    assert_eq!(codes(&clauses[0]), vec![1, 2]);
    assert_eq!(codes(&clauses[1]), vec![-1]);
}

#[test]
fn malformed_text_is_a_syntax_failure() {
    match parse_dimacs("p cnf x y\n") {
        Err(ParseFailure::Syntax(report)) => assert!(!report.is_empty()),
        other => panic!("unexpected: {:?}", other.map(|c| c.len())),
    }
}

#[test]
fn sat_instance_is_not_cnf() {
    assert_eq!(parse_dimacs("p sat 2\n(*(+(1 2) -1))\n").map(|c| c.len()), Err(ParseFailure::NotCnf));
}

#[test]
fn empty_clause_is_refused() {
    assert_eq!(parse_dimacs("p cnf 2 2\n1 2 0\n0\n").map(|c| c.len()), Err(ParseFailure::EmptyClause));
}

#[test]
fn variable_beyond_a_literal_is_refused() {
    let rows = vec![vec![(Sign::Pos, 1u64), (Sign::Neg, 2147483648u64)]];
    assert_eq!(clauses_of_instance(Some(rows)).map(|c| c.len()), Err(ParseFailure::VariableOutOfRange));
    let rows = vec![vec![(Sign::Pos, 1u64), (Sign::Neg, 2147483647u64)]];
    let clauses = clauses_of_instance(Some(rows)).unwrap();
    assert_eq!(codes(&clauses[0]), vec![1, -2147483647]);
}

#[test]
fn first_fault_of_a_formula_is_reported() {
    let rows = vec![vec![(Sign::Pos, 1u64)], vec![], vec![(Sign::Pos, 4294967296u64)]];
    assert_eq!(clauses_of_instance(Some(rows)).map(|c| c.len()), Err(ParseFailure::EmptyClause));
    let rows = vec![vec![(Sign::Pos, 4294967296u64)], vec![]];
    assert_eq!(clauses_of_instance(Some(rows)).map(|c| c.len()), Err(ParseFailure::VariableOutOfRange));
    assert_eq!(clauses_of_instance(None).map(|c| c.len()), Err(ParseFailure::NotCnf));
}

#[test]
fn overlong_literal_is_unsupported() {
    assert_eq!(
        parse_dimacs("p cnf 3 1\n1 1234567890123456789 0\n").map(|c| c.len()),
        Err(ParseFailure::Unsupported)
    );
    assert_eq!(
        parse_dimacs("p cnf 3 1\n1 -123456789012345678 0\n").map(|c| c.len()),
        Err(ParseFailure::VariableOutOfRange)
    );
    assert_eq!(
        parse_dimacs("p cnf 3 1\n1 2147483648 0\n").map(|c| c.len()),
        Err(ParseFailure::VariableOutOfRange)
    );
    let clauses = parse_dimacs("p cnf 3 1\n1 -2147483647 0\n").unwrap();
    assert_eq!(codes(&clauses[0]), vec![1, -2147483647]);
}

#[test]
fn header_counts_have_their_own_limits() {
    let clauses = parse_dimacs("p cnf 123456789 1\n1 0\n").unwrap();
    assert_eq!(clauses.len(), 1);
    assert_eq!(codes(&clauses[0]), vec![1]);
    assert_eq!(parse_dimacs("p cnf 9999999999999999999 1\n1 0\n").map(|c| c.len()), Ok(1));
    assert_eq!(
        parse_dimacs("p cnf 10000000000000000000 1\n1 0\n").map(|c| c.len()),
        Err(ParseFailure::Unsupported)
    );
    assert!(parser_accepts("p cnf 3 99999999\n"));
    assert_eq!(parse_dimacs("p cnf 3 123456789\n1 0\n").map(|c| c.len()), Err(ParseFailure::Unsupported));
}

#[test]
fn numbers_in_comments_are_not_counted() {
    let text = "c seed 123456789012345678901234567890 ((((\np cnf 1 1\nc 99999999999999999999\n1 0\n";
    assert_eq!(parse_dimacs(text).map(|c| c.len()), Ok(1));
    assert!(parser_accepts("c 000000000\np cnf 1 1\n1 0\n"));
    assert!(parser_accepts("000000000000000000000000000000"));
}

#[test]
fn deep_nesting_is_unsupported() {
    let deep = "(".repeat(1001);
    assert!(!parser_accepts(&deep));
    assert_eq!(parse_dimacs(&deep).map(|c| c.len()), Err(ParseFailure::Unsupported));
    assert!(parser_accepts(&"(".repeat(1000)));
    assert!(parser_accepts(&format!("c {}\n", "(".repeat(5000))));
}

#[test]
fn only_comments_in_a_row_are_counted() {
    let mut text = String::from("p cnf 1 3000\n");
    for _ in 0..3000 {
        text.push_str("c a note, c and c\n1 0\n");
    }
    assert!(parser_accepts(&text));
    assert_eq!(parse_dimacs(&text).map(|c| c.len()), Ok(1));
    let row = format!("{}p cnf 1 1\n1 0\n", "c note\n".repeat(4000));
    assert!(parser_accepts(&row));
    assert_eq!(parse_dimacs(&row).map(|c| c.len()), Ok(1));
    assert!(!parser_accepts(&"c\n".repeat(4001)));
    assert!(!parser_accepts(&format!("{}c", "c \n".repeat(4000))));
    assert!(parser_accepts(&"ca ".repeat(5000)));
}

#[test]
fn nothing_after_a_zero_character_is_scanned() {
    assert!(parser_accepts("p cnf 1 1\n1 0\n\0 12345678901234567890123"));
}

#[test]
fn empty_text_is_a_syntax_failure() {
    assert!(matches!(parse_dimacs(""), Err(ParseFailure::Syntax(_))));
}
