//! Finite computational fragments of mathematical statements: a stack
//! machine, a predicate compiler, search-program builders, programs for
//! bounded fragments of open problems, and a small dependently typed core
//! calculus with its reducer.

pub mod vm;
pub mod predicate;
pub mod program_builder;
pub mod nested_search;
pub mod open_problems;
pub mod trial_division;
pub mod twin_primes;
pub mod goldbach;
pub mod bertrand;
pub mod legendre;
pub mod collatz;
pub mod odd_perfect;
pub mod mersenne;
pub mod weak_goldbach;
pub mod lagrange;
pub mod bsd;
pub mod flt;
pub mod mertens;
pub mod erdos_straus;
pub mod proof_enum;
pub mod schema;
pub mod schemas;
