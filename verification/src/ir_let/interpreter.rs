//! Running a flat program: the abstract machine and its implementation.

pub mod machine;
pub mod laws;
pub mod balance;
pub mod balance_laws;
pub mod reclaim_laws;
pub mod environment_laws;
pub mod renaming;
pub mod renaming_laws;
pub mod source_laws;
pub mod calls;
pub mod simple_eval;
