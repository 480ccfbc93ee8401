//! Core pipeline for enumerating, evaluating and collecting die-face
//! equations: every leaf ordering, every parenthesization and every
//! per-depth operation assignment is generated, evaluated and rendered, and
//! the candidates whose total is an integer inside the configured range are
//! returned deduplicated and sorted by a canonical key.
//!
//! Numeric work on evaluated totals is IEEE double-precision arithmetic,
//! delegated to a caller-supplied oracle closure over bit patterns (see
//! [`oracle`]); everything the library itself does is verified, and its
//! contracts promise the exact pipeline output for every model the oracle
//! follows.

pub mod eval;
pub mod ops;
pub mod oracle;
pub mod solve;
pub mod text;
pub mod tree;

pub use eval::CannotSolve;
pub use eval::IntermediateResult;
pub use eval::calculate_result;
pub use ops::OpKind;
pub use ops::Operation;
pub use ops::OperationWithActions;
pub use ops::format_equation;
pub use ops::get_operations;
pub use ops::operations_catalog;
pub use oracle::FloatAnswer;
pub use oracle::FloatQuery;
pub use solve::CalculateResult;
pub use solve::SolverConfig;
pub use solve::calculate_results;
pub use solve::validate_solver_config;
pub use text::get_sortable_equation;
pub use tree::PairingEntry;
pub use tree::get_pairing_permutations;
