//! The let-normalized intermediate form and what works on it.

pub mod let_expr;
pub mod free_vars;
pub mod free_vars_laws;
pub mod names;
pub mod well_formed;
pub mod normal_form;
pub mod closedness;
pub mod purity;
pub mod invariants;
pub mod binders;
pub mod scoping;
pub mod scoping_laws;
pub mod reachability;
pub mod capture_laws;
pub mod capture_scope;
pub mod compiler;
pub mod interpreter;
