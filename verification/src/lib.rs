pub mod hashing;
pub mod literal;
pub mod parser;
pub mod clause;
pub mod conflict_analyzer;
pub mod decider;
pub mod decision;
pub mod solver;

pub use crate::clause::Clause;
pub use crate::clause::ClauseId;
pub use crate::clause::ClauseView;
pub use crate::conflict_analyzer::learn_from_conflict;
pub use crate::decider::DeciderView;
pub use crate::decider::VSIDSDecider;
pub use crate::decision::Decision;
pub use crate::decision::DecisionView;
pub use crate::hashing::LiteralSet;
pub use crate::literal::Literal;
pub use crate::literal::Sign;
pub use crate::parser::parse_dimacs;
pub use crate::parser::ParseFailure;
pub use crate::solver::Constant;
pub use crate::solver::Solver;
pub use crate::solver::SolverView;
