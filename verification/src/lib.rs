pub mod bounded;
pub mod cnf;
pub mod derivation;
pub mod heuristic;
pub mod term;
pub mod tree;

pub use bounded::{BoundedIterator, BoundedOption};
pub use cnf::{Clause, Formula, Term};
pub use derivation::Derivation;
pub use heuristic::{DefaultDerivationHeuristic, DerivationHeuristic, SimplestHeuristic};
pub use term::DerivationTerm;
pub use tree::DerivationTree;
