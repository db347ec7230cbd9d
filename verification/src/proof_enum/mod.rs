//! The proof enumerator's core: terms of a small dependent type theory,
//! their reduction, the statements to prove, and candidate enumeration.

pub mod core_term;
pub mod reduce;
pub mod statement;
pub mod decide;
pub mod witness;
pub mod candidate;
pub mod generator;
pub mod rewrite;
pub mod accelerator;
pub mod engine;
pub mod text;
pub mod solve;
pub mod elab;
pub mod type_check;
pub mod extract;
